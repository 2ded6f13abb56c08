//! The status text of a Minecraft Bedrock server, as it travels in an
//! unconnected pong, and the rewriting of its world name and game ports.
//!
//! The text is a run of fields separated by `;`. Only a few fields are read:
//! cutting the text at its 7th, 8th, 10th, 11th and 12th `;` gives six parts,
//! of which the second is the world name and the fourth and fifth are the
//! IPv4 and IPv6 game ports.
use crate::decimal::{decimal, parse_u16, port_or_zero, push_decimal};
use vstd::prelude::*;
use vstd::utf8::*;

verus! {

/// The byte of `;`.
pub const SEMICOLON: u8 = 59u8;

/// Number of `;` bytes in `s`.
pub open spec fn semicolons(s: Seq<u8>) -> nat
    decreases s.len(),
{
    if s.len() == 0 {
        0
    } else {
        semicolons(s.drop_last()) + if s.last() == SEMICOLON {
            1nat
        } else {
            0nat
        }
    }
}

/// `p` is where the `k`-th `;` of `s` stands (counting from 1).
pub open spec fn is_semicolon_at(s: Seq<u8>, k: nat, p: int) -> bool {
    &&& 0 <= p < s.len()
    &&& s[p] == SEMICOLON
    &&& semicolons(s.take(p)) + 1 == k
}

/// Where the `k`-th `;` of `s` stands.
pub open spec fn semicolon_index(s: Seq<u8>, k: nat) -> int {
    choose|p: int| is_semicolon_at(s, k, p)
}

/// The six parts of a status text that holds at least twelve `;`: what lies
/// before its 7th `;`, between its 7th and 8th, 8th and 10th, 10th and 11th,
/// 11th and 12th, and after its 12th.
pub open spec fn pong_fields(s: Seq<u8>) -> Seq<Seq<u8>> {
    let p7 = semicolon_index(s, 7);
    let p8 = semicolon_index(s, 8);
    let p10 = semicolon_index(s, 10);
    let p11 = semicolon_index(s, 11);
    let p12 = semicolon_index(s, 12);
    seq![
        s.take(p7),
        s.subrange(p7 + 1, p8),
        s.subrange(p8 + 1, p10),
        s.subrange(p10 + 1, p11),
        s.subrange(p11 + 1, p12),
        s.skip(p12 + 1),
    ]
}

/// The parts joined with `;` between each two.
pub open spec fn join_fields(parts: Seq<Seq<u8>>) -> Seq<u8>
    decreases parts.len(),
{
    if parts.len() == 0 {
        Seq::empty()
    } else if parts.len() == 1 {
        parts[0]
    } else {
        join_fields(parts.drop_last()) + seq![SEMICOLON] + parts.last()
    }
}

/// Six parts that cutting a status text gives: the first holds six `;`,
/// the third one, the second, fourth and fifth none.
pub open spec fn pong_shaped(parts: Seq<Seq<u8>>) -> bool {
    &&& parts.len() == 6
    &&& semicolons(parts[0]) == 6
    &&& semicolons(parts[1]) == 0
    &&& semicolons(parts[2]) == 1
    &&& semicolons(parts[3]) == 0
    &&& semicolons(parts[4]) == 0
}

/// Counting `;` adds up over concatenation.
pub proof fn lemma_semicolons_concat(a: Seq<u8>, b: Seq<u8>)
    ensures
        semicolons(a + b) == semicolons(a) + semicolons(b),
    decreases b.len(),
{
    if b.len() == 0 {
        assert(a + b =~= a);
    } else {
        lemma_semicolons_concat(a, b.drop_last());
        assert((a + b).drop_last() =~= a + b.drop_last());
    }
}

proof fn lemma_semicolons_prefix(s: Seq<u8>, i: int, j: int)
    requires
        0 <= i <= j <= s.len(),
    ensures
        semicolons(s.take(j)) == semicolons(s.take(i)) + semicolons(s.subrange(i, j)),
{
    lemma_semicolons_concat(s.take(i), s.subrange(i, j));
    assert(s.take(j) =~= s.take(i) + s.subrange(i, j));
}

proof fn lemma_semicolons_step(s: Seq<u8>, p: int)
    requires
        0 <= p < s.len(),
    ensures
        semicolons(s.take(p + 1)) == semicolons(s.take(p)) + if s[p] == SEMICOLON {
            1nat
        } else {
            0nat
        },
{
    assert(s.take(p + 1).drop_last() =~= s.take(p));
}

proof fn lemma_semicolon_unique(s: Seq<u8>, k: nat, p: int, q: int)
    requires
        is_semicolon_at(s, k, p),
        is_semicolon_at(s, k, q),
    ensures
        p == q,
{
    if p < q {
        lemma_semicolons_step(s, p);
        lemma_semicolons_prefix(s, p + 1, q);
    } else if q < p {
        lemma_semicolons_step(s, q);
        lemma_semicolons_prefix(s, q + 1, p);
    }
}

proof fn lemma_semicolon_index(s: Seq<u8>, k: nat, p: int)
    requires
        is_semicolon_at(s, k, p),
    ensures
        semicolon_index(s, k) == p,
{
    lemma_semicolon_unique(s, k, p, semicolon_index(s, k));
}

proof fn lemma_semicolon_exists(s: Seq<u8>, k: nat)
    requires
        1 <= k <= semicolons(s),
    ensures
        is_semicolon_at(s, k, semicolon_index(s, k)),
    decreases s.len(),
{
    let t = s.drop_last();
    if semicolons(t) >= k {
        lemma_semicolon_exists(t, k);
        let p = semicolon_index(t, k);
        assert(s.take(p) =~= t.take(p));
        assert(is_semicolon_at(s, k, p));
    } else {
        assert(s.take(s.len() - 1) =~= t);
        assert(is_semicolon_at(s, k, s.len() - 1));
    }
}

proof fn lemma_semicolon_order(s: Seq<u8>, k: nat, j: nat, p: int, q: int)
    requires
        k < j,
        is_semicolon_at(s, k, p),
        is_semicolon_at(s, j, q),
    ensures
        p < q,
{
    if q <= p {
        lemma_semicolons_prefix(s, q, p);
    }
}

proof fn lemma_join_six(parts: Seq<Seq<u8>>)
    requires
        parts.len() == 6,
    ensures
        join_fields(parts) == parts[0] + seq![SEMICOLON] + parts[1] + seq![SEMICOLON] + parts[2]
            + seq![SEMICOLON] + parts[3] + seq![SEMICOLON] + parts[4] + seq![SEMICOLON]
            + parts[5],
{
    let p5 = parts.drop_last();
    let p4 = p5.drop_last();
    let p3 = p4.drop_last();
    let p2 = p3.drop_last();
    let p1 = p2.drop_last();
    assert(join_fields(p1) == parts[0]);
    assert(join_fields(p2) == parts[0] + seq![SEMICOLON] + parts[1]);
    assert(join_fields(p3) == join_fields(p2) + seq![SEMICOLON] + parts[2]);
    assert(join_fields(p4) == join_fields(p3) + seq![SEMICOLON] + parts[3]);
    assert(join_fields(p5) == join_fields(p4) + seq![SEMICOLON] + parts[4]);
}

/// A status text with at least twelve `;` is cut into six parts that have the
/// shape of a status text and that give the text back when joined with `;`.
pub proof fn lemma_pong_fields_join(s: Seq<u8>)
    requires
        semicolons(s) >= 12,
    ensures
        pong_shaped(pong_fields(s)),
        join_fields(pong_fields(s)) == s,
{
    lemma_semicolon_exists(s, 7);
    lemma_semicolon_exists(s, 8);
    lemma_semicolon_exists(s, 9);
    lemma_semicolon_exists(s, 10);
    lemma_semicolon_exists(s, 11);
    lemma_semicolon_exists(s, 12);
    let p7 = semicolon_index(s, 7);
    let p8 = semicolon_index(s, 8);
    let p9 = semicolon_index(s, 9);
    let p10 = semicolon_index(s, 10);
    let p11 = semicolon_index(s, 11);
    let p12 = semicolon_index(s, 12);
    lemma_semicolon_order(s, 7, 8, p7, p8);
    lemma_semicolon_order(s, 8, 9, p8, p9);
    lemma_semicolon_order(s, 9, 10, p9, p10);
    lemma_semicolon_order(s, 10, 11, p10, p11);
    lemma_semicolon_order(s, 11, 12, p11, p12);
    lemma_semicolons_step(s, p7);
    lemma_semicolons_step(s, p8);
    lemma_semicolons_step(s, p10);
    lemma_semicolons_step(s, p11);
    lemma_semicolons_prefix(s, p7 + 1, p8);
    lemma_semicolons_prefix(s, p8 + 1, p10);
    lemma_semicolons_prefix(s, p10 + 1, p11);
    lemma_semicolons_prefix(s, p11 + 1, p12);
    let f = pong_fields(s);
    lemma_join_six(f);
    assert(join_fields(f) =~= s);
}

proof fn lemma_semicolons_sep(a: Seq<u8>, b: Seq<u8>)
    ensures
        semicolons(a + seq![SEMICOLON] + b) == semicolons(a) + 1 + semicolons(b),
{
    let sc = seq![SEMICOLON];
    assert(sc.drop_last() =~= Seq::<u8>::empty());
    assert(semicolons(sc.drop_last()) == 0);
    assert(semicolons(sc) == 1);
    lemma_semicolons_concat(a, sc);
    lemma_semicolons_concat(a + sc, b);
}

proof fn lemma_sep_at(z: Seq<u8>, x: Seq<u8>, y: Seq<u8>)
    requires
        z == x + seq![SEMICOLON] + y,
    ensures
        z.len() == x.len() + 1 + y.len(),
        z.take(x.len() as int) == x,
        z[x.len() as int] == SEMICOLON,
        z.skip(x.len() + 1int) == y,
{
    assert(z.take(x.len() as int) =~= x);
    assert(z.skip(x.len() + 1int) =~= y);
}

proof fn lemma_in_prefix(s: Seq<u8>, a: Seq<u8>, x: Seq<u8>, y: Seq<u8>)
    requires
        a == x + seq![SEMICOLON] + y,
        a.len() <= s.len(),
        s.take(a.len() as int) == a,
    ensures
        s.take(x.len() as int) == x,
        s[x.len() as int] == SEMICOLON,
        s.subrange(x.len() + 1int, a.len() as int) == y,
{
    lemma_sep_at(a, x, y);
    assert(s.take(x.len() as int) =~= a.take(x.len() as int));
    assert(s[x.len() as int] == a[x.len() as int]);
    assert(s.subrange(x.len() + 1int, a.len() as int) =~= a.skip(x.len() + 1int));
}

/// Cutting the join of six parts of the right shape gives the six parts back.
#[verifier::spinoff_prover]
pub proof fn lemma_join_pong_fields(parts: Seq<Seq<u8>>)
    requires
        pong_shaped(parts),
    ensures
        semicolons(join_fields(parts)) >= 12,
        pong_fields(join_fields(parts)) == parts,
{
    let sc = seq![SEMICOLON];
    let p0 = parts[0];
    let p1 = parts[1];
    let p2 = parts[2];
    let p3 = parts[3];
    let p4 = parts[4];
    let p5 = parts[5];
    let a1 = p0 + sc + p1;
    let a2 = a1 + sc + p2;
    let a3 = a2 + sc + p3;
    let a4 = a3 + sc + p4;
    let s = a4 + sc + p5;
    lemma_join_six(parts);
    assert(join_fields(parts) == s);
    lemma_semicolons_sep(p0, p1);
    lemma_semicolons_sep(a1, p2);
    lemma_semicolons_sep(a2, p3);
    lemma_semicolons_sep(a3, p4);
    lemma_semicolons_sep(a4, p5);
    lemma_sep_at(s, a4, p5);
    lemma_in_prefix(s, a4, a3, p4);
    lemma_in_prefix(s, a3, a2, p3);
    lemma_in_prefix(s, a2, a1, p2);
    lemma_in_prefix(s, a1, p0, p1);
    lemma_semicolon_index(s, 7, p0.len() as int);
    lemma_semicolon_index(s, 8, a1.len() as int);
    lemma_semicolon_index(s, 10, a2.len() as int);
    lemma_semicolon_index(s, 11, a3.len() as int);
    lemma_semicolon_index(s, 12, a4.len() as int);
    let f = pong_fields(s);
    assert(f =~= parts);
}

/// The text that `String::from_utf8_lossy` makes of `bytes`.
pub uninterp spec fn utf8_lossy(bytes: Seq<u8>) -> Seq<char>;

/// Wraps `String::from_utf8_lossy`. Claimed: the result is the named text of
/// the bytes; where the bytes are valid UTF-8 it is their decoding (the
/// function replaces only ill-formed sequences, by U+FFFD); and bytes without
/// `;` give text without `;` (a `;` is decoded only from its own byte, which
/// never stands inside the encoding of another character, and U+FFFD is no `;`).
#[verifier::external_body]
fn decode_lossy(bytes: &[u8]) -> (s: String)
    ensures
        s@ == utf8_lossy(bytes@),
        valid_utf8(bytes@) ==> s@ == decode_utf8(bytes@),
        semicolons(bytes@) == 0 ==> !s@.contains(';'),
{
    String::from_utf8_lossy(bytes).into_owned()
}

/// The six parts of a status text after a rewrite: the world name becomes the
/// UTF-8 bytes of `name`, the IPv4 game port `port` and the IPv6 one `port + 1`.
pub open spec fn rewritten_fields(fields: Seq<Seq<u8>>, name: Seq<char>, port: u16) -> Seq<
    Seq<u8>,
> {
    fields.update(1, encode_utf8(name)).update(3, decimal(port as nat)).update(
        4,
        decimal((port + 1) as nat),
    )
}

/// Where the 7th, 8th, 10th, 11th and 12th `;` of `input` stand, if it has
/// twelve.
fn cut_points(input: &[u8]) -> (r: Option<(usize, usize, usize, usize, usize)>)
    ensures
        r is None <==> semicolons(input@) < 12,
        r matches Some(c) ==> {
            &&& semicolons(input@) >= 12
            &&& c.0 == semicolon_index(input@, 7)
            &&& c.1 == semicolon_index(input@, 8)
            &&& c.2 == semicolon_index(input@, 10)
            &&& c.3 == semicolon_index(input@, 11)
            &&& c.4 == semicolon_index(input@, 12)
            &&& c.0 < c.1 < c.2 < c.3 < c.4 < input@.len()
        },
{
        let mut count: usize = 0;
        let mut c7: usize = 0;
        let mut c8: usize = 0;
        let mut c10: usize = 0;
        let mut c11: usize = 0;
        let mut c12: usize = 0;
        let mut i: usize = 0;
        while i < input.len() && count < 12
            invariant
                i <= input@.len(),
                count <= 12,
                count == semicolons(input@.take(i as int)),
                count >= 7 ==> is_semicolon_at(input@, 7, c7 as int),
                count >= 8 ==> is_semicolon_at(input@, 8, c8 as int),
                count >= 10 ==> is_semicolon_at(input@, 10, c10 as int),
                count >= 11 ==> is_semicolon_at(input@, 11, c11 as int),
                count >= 12 ==> is_semicolon_at(input@, 12, c12 as int),
            decreases input@.len() - i,
        {
            proof {
                lemma_semicolons_step(input@, i as int);
            }
            if input[i] == SEMICOLON {
                count = count + 1;
                if count == 7 {
                    c7 = i;
                } else if count == 8 {
                    c8 = i;
                } else if count == 10 {
                    c10 = i;
                } else if count == 11 {
                    c11 = i;
                } else if count == 12 {
                    c12 = i;
                }
            }
            i = i + 1;
        }
        if count < 12 {
            assert(input@.take(i as int) =~= input@);
            return None;
        }
        proof {
            lemma_semicolons_prefix(input@, i as int, input@.len() as int);
            assert(input@.take(input@.len() as int) =~= input@);
            lemma_semicolon_index(input@, 7, c7 as int);
            lemma_semicolon_index(input@, 8, c8 as int);
            lemma_semicolon_index(input@, 10, c10 as int);
            lemma_semicolon_index(input@, 11, c11 as int);
            lemma_semicolon_index(input@, 12, c12 as int);
            lemma_pong_fields_join(input@);
            lemma_semicolon_order(input@, 7, 8, c7 as int, c8 as int);
            lemma_semicolon_order(input@, 8, 10, c8 as int, c10 as int);
            lemma_semicolon_order(input@, 10, 11, c10 as int, c11 as int);
            lemma_semicolon_order(input@, 11, 12, c11 as int, c12 as int);
        }
        Some((c7, c8, c10, c11, c12))
}

/// The status text of a Minecraft Bedrock server, cut into the parts that
/// are rewritten and the parts that are carried through.
#[derive(Debug)]
pub struct MCPEInfo<'a> {
    splits: Vec<&'a [u8]>,
    pub world_name: String,
    pub game_port: u16,
}

impl<'a> MCPEInfo<'a> {
    /// The six parts that the text was cut into.
    pub closed spec fn fields(&self) -> Seq<Seq<u8>> {
        Seq::new(self.splits@.len(), |i: int| self.splits@[i]@)
    }

    /// The world name.
    pub closed spec fn name(&self) -> Seq<char> {
        self.world_name@
    }

    /// The game port.
    pub closed spec fn port(&self) -> u16 {
        self.game_port
    }

    /// The parts have the shape that cutting a status text gives.
    pub open spec fn wf(&self) -> bool {
        pong_shaped(self.fields())
    }

    /// The world name.
    pub fn world_name(&self) -> (r: &str)
        ensures
            r@ == self.name(),
    {
        self.world_name.as_str()
    }

    /// Writes in a new world name; the parts and the game port stay.
    pub fn set_world_name(&mut self, name: String)
        ensures
            final(self).name() == name@,
            final(self).port() == old(self).port(),
            final(self).fields() == old(self).fields(),
    {
        self.world_name = name;
    }

    /// The game port.
    pub fn game_port(&self) -> (r: u16)
        ensures
            r == self.port(),
    {
        self.game_port
    }

    /// Writes in a new game port; the parts and the world name stay.
    pub fn set_game_port(&mut self, port: u16)
        ensures
            final(self).port() == port,
            final(self).name() == old(self).name(),
            final(self).fields() == old(self).fields(),
    {
        self.game_port = port;
    }

    /// Cuts a status text at its 7th, 8th, 10th, 11th and 12th `;`; reads the
    /// world name from the second part and the game port from the fourth (0
    /// where it is no port number). A text with fewer than twelve `;` is refused.
    pub fn deserialize(input: &'a [u8]) -> (r: Option<MCPEInfo<'a>>)
        ensures
            r is None <==> semicolons(input@) < 12,
            r matches Some(info) ==> {
                &&& info.wf()
                &&& info.fields() == pong_fields(input@)
                &&& info.name() == utf8_lossy(pong_fields(input@)[1])
                &&& valid_utf8(pong_fields(input@)[1]) ==> info.name() == decode_utf8(
                    pong_fields(input@)[1],
                )
                &&& info.port() == port_or_zero(pong_fields(input@)[3])
                &&& !info.name().contains(';')
            },
    {
        let (c7, c8, c10, c11, c12) = match cut_points(input) {
            None => {
                return None;
            },
            Some(c) => c,
        };
        proof {
            lemma_pong_fields_join(input@);
        }
        let n = input.len();
        let splits: Vec<&'a [u8]> = vec![
            &input[0..c7],
            &input[c7 + 1..c8],
            &input[c8 + 1..c10],
            &input[c10 + 1..c11],
            &input[c11 + 1..c12],
            &input[c12 + 1..n],
        ];
        let world_name = decode_lossy(splits[1]);
        let game_port = match parse_u16(splits[3]) {
            Some(p) => p,
            None => 0,
        };
        let info = MCPEInfo { splits, world_name, game_port };
        assert(info.fields() =~= pong_fields(input@));
        Some(info)
    }

    /// Joins the parts with `;` again, with the world name and the two game
    /// ports (`game_port` for IPv4, `game_port + 1` for IPv6) written in.
    pub fn serialize(&self) -> (out: Vec<u8>)
        requires
            self.wf(),
            self.port() < u16::MAX,
        ensures
            out@ == join_fields(rewritten_fields(self.fields(), self.name(), self.port())),
    {
        let ghost parts = rewritten_fields(self.fields(), self.world_name@, self.game_port);
        let mut out: Vec<u8> = Vec::new();
        out.extend_from_slice(self.splits[0]);
        assert(out@ =~= parts[0]);
        out.push(SEMICOLON);
        out.extend_from_slice(self.world_name.as_str().as_bytes());
        assert(out@ =~= parts[0] + seq![SEMICOLON] + parts[1]);
        out.push(SEMICOLON);
        out.extend_from_slice(self.splits[2]);
        assert(out@ =~= parts[0] + seq![SEMICOLON] + parts[1] + seq![SEMICOLON] + parts[2]);
        out.push(SEMICOLON);
        push_decimal(&mut out, self.game_port);
        out.push(SEMICOLON);
        push_decimal(&mut out, self.game_port + 1);
        out.push(SEMICOLON);
        let ghost before = out@;
        out.extend_from_slice(self.splits[5]);
        assert(out@ =~= before + parts[5]);
        proof {
            lemma_join_six(parts);
        }
        assert(out@ =~= join_fields(parts));
        out
    }
}

/// The IPv4 game port that a pong announces (0 where the field is no port
/// number), if the pong can be read.
pub fn announced_port(pong: &[u8]) -> (r: Option<u16>)
    ensures
        r is None <==> semicolons(pong@) < 12,
        r matches Some(p) ==> p == port_or_zero(pong_fields(pong@)[3]),
{
    match MCPEInfo::deserialize(pong) {
        None => None,
        Some(info) => Some(info.game_port),
    }
}

/// Whether two byte strings are equal.
pub fn bytes_equal(a: &[u8], b: &[u8]) -> (r: bool)
    ensures
        r == (a@ == b@),
{
    if a.len() != b.len() {
        return false;
    }
    let mut i: usize = 0;
    while i < a.len()
        invariant
            a@.len() == b@.len(),
            i <= a@.len(),
            forall|j: int| 0 <= j < i ==> a@[j] == b@[j],
        decreases a@.len() - i,
    {
        if a[i] != b[i] {
            return false;
        }
        i = i + 1;
    }
    assert(a@ =~= b@);
    true
}

/// The pong that a player's side last rewrote, and what it became.
pub struct PongCache {
    last: Vec<u8>,
    load: Vec<u8>,
}

impl PongCache {
    /// The pong last rewritten.
    pub closed spec fn last_pong(&self) -> Seq<u8> {
        self.last@
    }

    /// What it became.
    pub closed spec fn loaded(&self) -> Seq<u8> {
        self.load@
    }

    /// Nothing rewritten yet: both are empty.
    pub fn new() -> (c: PongCache)
        ensures
            c.last_pong() == Seq::<u8>::empty(),
            c.loaded() == Seq::<u8>::empty(),
    {
        PongCache { last: Vec::new(), load: Vec::new() }
    }

    /// Rewrites the pong `data` so that it announces game port `port`,
    /// unless it is the pong rewritten last; refuses a pong with fewer than
    /// twelve `;`, and then keeps what it had.
    pub fn refresh(&mut self, data: &[u8], port: u16) -> (ok: bool)
        requires
            data@ != old(self).last_pong() && semicolons(data@) >= 12 ==> port < u16::MAX,
        ensures
            data@ == old(self).last_pong() ==> ok && final(self).last_pong() == old(self).last_pong()
                && final(self).loaded() == old(self).loaded(),
            data@ != old(self).last_pong() && semicolons(data@) < 12 ==> !ok && final(self).last_pong()
                == old(self).last_pong() && final(self).loaded() == old(self).loaded(),
            data@ != old(self).last_pong() && semicolons(data@) >= 12 ==> ok && final(self).last_pong()
                == data@ && final(self).loaded() == join_fields(
                rewritten_fields(pong_fields(data@), utf8_lossy(pong_fields(data@)[1]), port),
            ),
            data@ != old(self).last_pong() && semicolons(data@) >= 12 ==> {
                let out = final(self).loaded();
                &&& semicolons(out) >= 12
                &&& port_or_zero(pong_fields(out)[3]) == port
                &&& valid_utf8(pong_fields(out)[1])
                &&& decode_utf8(pong_fields(out)[1]) == utf8_lossy(pong_fields(data@)[1])
            },
    {
        if bytes_equal(data, self.last.as_slice()) {
            return true;
        }
        match MCPEInfo::deserialize(data) {
            None => false,
            Some(mut info) => {
                proof {
                    lemma_rewritten_pong_announces(data@, info.name(), port);
                }
                info.game_port = port;
                self.load = info.serialize();
                let mut last: Vec<u8> = Vec::new();
                last.extend_from_slice(data);
                assert(last@ =~= data@);
                self.last = last;
                true
            },
        }
    }

    /// The pong last rewritten.
    pub fn last(&self) -> (r: &[u8])
        ensures
            r@ == self.last_pong(),
    {
        self.last.as_slice()
    }

    /// What the pong last rewritten became.
    pub fn load(&self) -> (r: &[u8])
        ensures
            r@ == self.loaded(),
    {
        self.load.as_slice()
    }
}

proof fn lemma_semicolons_none(s: Seq<u8>)
    requires
        forall|i: int| 0 <= i < s.len() ==> s[i] != SEMICOLON,
    ensures
        semicolons(s) == 0,
    decreases s.len(),
{
    if s.len() > 0 {
        lemma_semicolons_none(s.drop_last());
    }
}

proof fn lemma_scalar_no_semicolon(c: char)
    requires
        c != ';',
    ensures
        semicolons(encode_scalar(c as u32)) == 0,
{
    let v = c as u32;
    let e = encode_scalar(v);
    if has_width_1_encoding(v) {
        assert(leading_byte_width_1(v) != SEMICOLON) by (bit_vector)
            requires
                v <= 0x7f,
                v != 0x3b,
        ;
    } else {
        assert forall|y: u8| (0xC0u8 | y) != SEMICOLON && (0xE0u8 | y) != SEMICOLON && (0xF0u8 | y)
            != SEMICOLON && (0x80u8 | y) != SEMICOLON by {
            assert((0xC0u8 | y) != 0x3bu8 && (0xE0u8 | y) != 0x3bu8 && (0xF0u8 | y) != 0x3bu8 && (
            0x80u8 | y) != 0x3bu8) by (bit_vector);
        }
    }
    lemma_semicolons_none(e);
}

/// A name without `;` has none in its UTF-8 bytes.
pub proof fn lemma_name_no_semicolon(name: Seq<char>)
    requires
        !name.contains(';'),
    ensures
        semicolons(encode_utf8(name)) == 0,
    decreases name.len(),
{
    if name.len() > 0 {
        assert(!name.drop_first().contains(';')) by {
            if name.drop_first().contains(';') {
                let i = choose|i: int| 0 <= i < name.drop_first().len() && name.drop_first()[i] == ';';
                assert(name[i + 1] == ';');
            }
        }
        lemma_name_no_semicolon(name.drop_first());
        lemma_scalar_no_semicolon(name[0]);
        lemma_semicolons_concat(encode_scalar(name[0] as u32), encode_utf8(name.drop_first()));
    }
}

/// Reading back a rewritten status text gives the parts that were written,
/// the world name and the game port, provided the world name holds no `;`.
pub proof fn lemma_reread(fields: Seq<Seq<u8>>, name: Seq<char>, port: u16)
    requires
        pong_shaped(fields),
        !name.contains(';'),
        port < u16::MAX,
    ensures
        ({
            let parts = rewritten_fields(fields, name, port);
            let text = join_fields(parts);
            &&& semicolons(text) >= 12
            &&& pong_fields(text) == parts
            &&& valid_utf8(pong_fields(text)[1])
            &&& decode_utf8(pong_fields(text)[1]) == name
            &&& port_or_zero(pong_fields(text)[3]) == port
        }),
{
    let parts = rewritten_fields(fields, name, port);
    lemma_name_no_semicolon(name);
    crate::decimal::lemma_parse_decimal(port);
    crate::decimal::lemma_decimal_no_semicolon(port as nat);
    crate::decimal::lemma_decimal_no_semicolon((port + 1) as nat);
    encode_utf8_valid_utf8(name);
    encode_utf8_decode_utf8(name);
    assert(pong_shaped(parts));
    lemma_join_pong_fields(parts);
}

proof fn lemma_semicolon_in_name(name: Seq<char>)
    requires
        name.contains(';'),
    ensures
        semicolons(encode_utf8(name)) >= 1,
    decreases name.len(),
{
    let head = encode_scalar(name[0] as u32);
    if name[0] == ';' {
        assert(name[0] as u32 == 0x3bu32);
        assert((0x3bu32 & 0x7f) as u8 == 0x3bu8) by (bit_vector);
        assert(head =~= seq![SEMICOLON]);
        assert(head.drop_last() =~= Seq::<u8>::empty());
        assert(semicolons(head.drop_last()) == 0);
    } else {
        let i = choose|i: int| 0 <= i < name.len() && name[i] == ';';
        assert(name.drop_first()[i - 1] == ';');
        lemma_semicolon_in_name(name.drop_first());
    }
    lemma_semicolons_concat(head, encode_utf8(name.drop_first()));
}

/// A player's status pipe hands its game a pong that announces the player's
/// game port and carries the host's world name. This holds for every world
/// name that reading a pong gives, since such a name holds no `;` (see
/// `MCPEInfo::deserialize`).
pub proof fn lemma_rewritten_pong_announces(data: Seq<u8>, name: Seq<char>, port: u16)
    requires
        semicolons(data) >= 12,
        !name.contains(';'),
        port < u16::MAX,
    ensures
        ({
            let out = join_fields(rewritten_fields(pong_fields(data), name, port));
            &&& semicolons(out) >= 12
            &&& port_or_zero(pong_fields(out)[3]) == port
            &&& valid_utf8(pong_fields(out)[1])
            &&& decode_utf8(pong_fields(out)[1]) == name
            &&& pong_fields(out)[0] == pong_fields(data)[0]
            &&& pong_fields(out)[2] == pong_fields(data)[2]
            &&& pong_fields(out)[5] == pong_fields(data)[5]
        }),
{
    let f = pong_fields(data);
    lemma_pong_fields_join(data);
    lemma_reread(f, name, port);
}

/// Rewriting a pong with the world name and game port it already carries,
/// in their usual spelling, gives the pong back unchanged.
pub proof fn lemma_rewrite_unchanged(s: Seq<u8>, port: u16)
    requires
        semicolons(s) >= 12,
        valid_utf8(pong_fields(s)[1]),
        pong_fields(s)[3] == decimal(port as nat),
        pong_fields(s)[4] == decimal((port + 1) as nat),
        port < u16::MAX,
    ensures
        port_or_zero(pong_fields(s)[3]) == port,
        join_fields(rewritten_fields(pong_fields(s), decode_utf8(pong_fields(s)[1]), port)) == s,
{
    let f = pong_fields(s);
    lemma_pong_fields_join(s);
    crate::decimal::lemma_parse_decimal(port);
    decode_utf8_encode_utf8(f[1]);
    assert(rewritten_fields(f, decode_utf8(f[1]), port) =~= f);
}

} // verus!
