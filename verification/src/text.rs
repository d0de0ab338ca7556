//! Text forms: dotted domain names ("www.test.com") and dotted-quad IPv4
//! addresses ("127.0.0.1"), as the constructors accept them.

use vstd::prelude::*;

use crate::name::LabelV;
use crate::name::seq_label;

verus! {

/// Splits text bytes on `.`: "a.b" gives the chunks of bytes between dots,
/// and there is always at least one chunk (the empty text gives one empty
/// chunk).
pub open spec fn spec_split_dots(s: Seq<u8>) -> Seq<Seq<u8>>
    decreases s.len(),
{
    if s.len() == 0 {
        seq![Seq::<u8>::empty()]
    } else if s[0] == 46 {
        seq![Seq::<u8>::empty()] + spec_split_dots(s.drop_first())
    } else {
        let r = spec_split_dots(s.drop_first());
        seq![seq![s[0]] + r[0]] + r.drop_first()
    }
}

/// The models of a sequence of byte chunks.
pub open spec fn view_chunks(s: Seq<Vec<u8>>) -> Seq<Seq<u8>> {
    s.map_values(|v: Vec<u8>| v@)
}

/// Splits the bytes of a dotted name into its chunks, starting at `start`.
pub fn split_dots(s: &Vec<u8>, start: usize) -> (r: Vec<Vec<u8>>)
    requires
        start <= s.len(),
    ensures
        view_chunks(r@) == spec_split_dots(s@.skip(start as int)),
        r@.len() >= 1,
    decreases s.len() - start,
{
    let ghost tail = s@.skip(start as int);
    if start >= s.len() {
        let mut r: Vec<Vec<u8>> = Vec::new();
        r.push(Vec::new());
        assert(tail =~= Seq::<u8>::empty());
        assert(view_chunks(r@) =~= spec_split_dots(tail));
        r
    } else if s[start] == 46 {
        let mut r = split_dots(s, start + 1);
        let ghost old_r = r@;
        let empty_chunk: Vec<u8> = Vec::new();
        r.insert(0, empty_chunk);
        proof {
            assert(tail.drop_first() =~= s@.skip(start as int + 1));
            assert(tail[0] == s@[start as int]);
            assert(r@[0]@ =~= Seq::<u8>::empty());
            assert(view_chunks(r@) =~= seq![Seq::<u8>::empty()] + view_chunks(old_r));
        }
        r
    } else {
        let mut r = split_dots(s, start + 1);
        let ghost old_r = r@;
        let mut first = r.remove(0);
        let ghost old_first = first@;
        first.insert(0, s[start]);
        r.insert(0, first);
        proof {
            assert(tail.drop_first() =~= s@.skip(start as int + 1));
            assert(tail[0] == s@[start as int]);
            assert(first@ =~= seq![s@[start as int]] + old_first);
            assert(old_first == view_chunks(old_r)[0]);
            assert(view_chunks(r@) =~= seq![seq![s@[start as int]] + view_chunks(old_r)[0]]
                + view_chunks(old_r).drop_first());
        }
        r
    }
}

/// The labels a dotted text name produces: one sequence label per chunk.
pub open spec fn labels_of_text(s: Seq<u8>) -> Seq<LabelV> {
    spec_split_dots(s).map_values(|c: Seq<u8>| seq_label(c, c.len() as u8))
}

/// The value of a chunk of decimal digit bytes, most significant first.
pub open spec fn dec_value(c: Seq<u8>) -> int
    decreases c.len(),
{
    if c.len() == 0 {
        0
    } else {
        dec_value(c.drop_last()) * 10 + (c.last() - 48)
    }
}

/// A chunk that denotes one octet of a dotted-quad IPv4 address: one to
/// three decimal digits, no leading zero, value at most 255.
pub open spec fn chunk_is_octet(c: Seq<u8>) -> bool {
    &&& 1 <= c.len() <= 3
    &&& forall|i: int| 0 <= i < c.len() ==> 48 <= #[trigger] c[i] <= 57
    &&& (c.len() > 1 ==> c[0] != 48)
    &&& dec_value(c) <= 255
}

/// The four octets of a dotted-quad IPv4 address, if the text is one.
pub open spec fn spec_parse_ipv4(s: Seq<u8>) -> Option<(u8, u8, u8, u8)> {
    let chunks = spec_split_dots(s);
    if chunks.len() == 4 && chunk_is_octet(chunks[0]) && chunk_is_octet(chunks[1])
        && chunk_is_octet(chunks[2]) && chunk_is_octet(chunks[3]) {
        Some(
            (
                dec_value(chunks[0]) as u8,
                dec_value(chunks[1]) as u8,
                dec_value(chunks[2]) as u8,
                dec_value(chunks[3]) as u8,
            ),
        )
    } else {
        None
    }
}

/// Reads the value of a chunk of decimal digits.
pub fn parse_octet(c: &Vec<u8>) -> (r: u8)
    requires
        chunk_is_octet(c@),
    ensures
        r == dec_value(c@),
{
    let mut v: u16 = 0;
    let mut i: usize = 0;
    proof {
        lemma_dec_value_bounds(c@, c@.len() as int);
    }
    while i < c.len()
        invariant
            i <= c.len(),
            chunk_is_octet(c@),
            v == dec_value(c@.take(i as int)),
            v <= 255,
        decreases c.len() - i,
    {
        proof {
            lemma_dec_value_bounds(c@, i + 1);
            assert(c@.take(i + 1).drop_last() =~= c@.take(i as int));
            assert(c@.take(i + 1).last() == c@[i as int]);
        }
        v = v * 10 + (c[i] - 48) as u16;
        i = i + 1;
    }
    assert(c@.take(c@.len() as int) =~= c@);
    v as u8
}

/// A run of at most two digits has a value of at most 99.
proof fn lemma_dec_small(c: Seq<u8>, n: int)
    requires
        forall|i: int| 0 <= i < c.len() ==> 48 <= #[trigger] c[i] <= 57,
        0 <= n <= c.len(),
        n <= 2,
    ensures
        0 <= dec_value(c.take(n)) <= 99,
    decreases n,
{
    if n == 0 {
        assert(c.take(0) =~= Seq::<u8>::empty());
    } else {
        lemma_dec_small(c, n - 1);
        assert(c.take(n).drop_last() =~= c.take(n - 1));
        assert(c.take(n).last() == c[n - 1]);
        assert(dec_value(Seq::<u8>::empty()) == 0);
        if n == 1 {
            assert(c.take(1).drop_last() =~= Seq::<u8>::empty());
            assert(dec_value(c.take(1)) == c[0] - 48);
        } else {
            assert(c.take(1).drop_last() =~= Seq::<u8>::empty());
            assert(c.take(1).last() == c[0]);
            assert(dec_value(c.take(1)) == dec_value(Seq::<u8>::empty()) * 10 + (c[0] - 48));
            assert(dec_value(c.take(n)) == dec_value(c.take(1)) * 10 + (c[1] - 48));
        }
    }
}

/// The value of each digit prefix of an octet chunk stays below 256.
proof fn lemma_dec_value_bounds(c: Seq<u8>, n: int)
    requires
        chunk_is_octet(c),
        0 <= n <= c.len(),
    ensures
        0 <= dec_value(c.take(n)) <= 255,
{
    if n <= 2 {
        lemma_dec_small(c, n);
    } else {
        assert(n == c.len());
        assert(c.take(n) =~= c);
        lemma_dec_small(c, 2);
        assert(c.drop_last() =~= c.take(c.len() - 1));
        assert(dec_value(c) == dec_value(c.take(c.len() - 1)) * 10 + (c.last() - 48));
        assert(dec_value(c) >= 0);
    }
}

} // verus!
