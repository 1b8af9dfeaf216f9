//! Serialisation of versioned components into store values.
//!
//! A component is written as text: an entry count, then each clock entry
//! as a framed actor name and count, then the optional payload. Numbers
//! take eight characters, one per byte, little end first. Decoding a
//! component someone encoded gives back a component that reads the same:
//! same dot for every actor, same payload.

use vstd::prelude::*;

use crate::component::{data_view, VersionedComponent};
use crate::vclock::{
    entries_dot, has_actor, lemma_entries_dot_drop_last, lemma_no_entry_dot,
    lemma_unique_entry_dot, unique_actors, Dot, VClock,
};

verus! {

/// Byte `i` of `n`, as a character.
pub open spec fn byte_char(n: u64, i: int) -> char {
    (((n >> ((8 * i) as u64)) & 0xff) as u8) as char
}

/// `n` as eight characters, little end first.
pub open spec fn u64_chars(n: u64) -> Seq<char> {
    seq![
        byte_char(n, 0),
        byte_char(n, 1),
        byte_char(n, 2),
        byte_char(n, 3),
        byte_char(n, 4),
        byte_char(n, 5),
        byte_char(n, 6),
        byte_char(n, 7),
    ]
}

/// The number eight characters at `pos` spell.
pub open spec fn read_u64_at(s: Seq<char>, pos: int) -> u64 {
    (((s[pos] as u64) & 0xff) | (((s[pos + 1] as u64) & 0xff) << 8) | (((s[pos + 2] as u64)
        & 0xff) << 16) | (((s[pos + 3] as u64) & 0xff) << 24) | (((s[pos + 4] as u64) & 0xff)
        << 32) | (((s[pos + 5] as u64) & 0xff) << 40) | (((s[pos + 6] as u64) & 0xff) << 48) | ((
    (s[pos + 7] as u64) & 0xff) << 56)) as u64
}

/// Eight characters written for `n` read back as `n`.
pub proof fn lemma_read_u64(s: Seq<char>, pos: int, n: u64)
    requires
        0 <= pos,
        pos + 8 <= s.len(),
        s.subrange(pos, pos + 8) == u64_chars(n),
    ensures
        read_u64_at(s, pos) == n,
{
    assert forall|i: int| 0 <= i < 8 implies s[pos + i] == u64_chars(n)[i] by {
        assert(s.subrange(pos, pos + 8)[i] == s[pos + i]);
    }
    assert forall|i: int| 0 <= i < 8 implies (#[trigger] (s[pos + i] as u64)) == ((n >> ((8 * i)
        as u64)) & 0xff) by {
        let sh = (8 * i) as u64;
        let b = ((n >> sh) & 0xff) as u8;
        assert((n >> sh) & 0xff < 256) by (bit_vector);
        assert(s[pos + i] == (b as char));
        assert(((b as char) as u32) == b as u32);
    }
    let b0 = (n >> 0u64) & 0xff;
    let b1 = (n >> 8u64) & 0xff;
    let b2 = (n >> 16u64) & 0xff;
    let b3 = (n >> 24u64) & 0xff;
    let b4 = (n >> 32u64) & 0xff;
    let b5 = (n >> 40u64) & 0xff;
    let b6 = (n >> 48u64) & 0xff;
    let b7 = (n >> 56u64) & 0xff;
    assert((((b0 & 0xff) | ((b1 & 0xff) << 8) | ((b2 & 0xff) << 16) | ((b3 & 0xff) << 24) | ((
    b4 & 0xff) << 32) | ((b5 & 0xff) << 40) | ((b6 & 0xff) << 48) | ((b7 & 0xff) << 56))
        == n)) by {
        assert((((((n >> 0u64) & 0xff) & 0xff) | (((((n >> 8u64) & 0xff)) & 0xff) << 8) | (((((
        n >> 16u64) & 0xff)) & 0xff) << 16) | (((((n >> 24u64) & 0xff)) & 0xff) << 24) | (((((
        n >> 32u64) & 0xff)) & 0xff) << 32) | (((((n >> 40u64) & 0xff)) & 0xff) << 40) | (((((
        n >> 48u64) & 0xff)) & 0xff) << 48) | (((((n >> 56u64) & 0xff)) & 0xff) << 56)) == n))
            by (bit_vector);
    }
}

/// One clock entry: framed actor name, then the count.
pub open spec fn entry_chunk(e: (Seq<char>, u64)) -> Seq<char> {
    u64_chars(e.0.len() as u64) + e.0 + u64_chars(e.1)
}

/// The clock entries, one chunk each.
pub open spec fn entries_chars(es: Seq<(Seq<char>, u64)>) -> Seq<char>
    decreases es.len(),
{
    if es.len() == 0 {
        Seq::empty()
    } else {
        entry_chunk(es[0]) + entries_chars(es.drop_first())
    }
}

/// The payload: a flag character, then the framed text when present.
pub open spec fn data_chars(d: Option<Seq<char>>) -> Seq<char> {
    match d {
        Some(t) => seq!['S'] + u64_chars(t.len() as u64) + t,
        None => seq!['N'],
    }
}

/// A whole component.
pub open spec fn comp_chars(es: Seq<(Seq<char>, u64)>, d: Option<Seq<char>>) -> Seq<char> {
    u64_chars(es.len() as u64) + entries_chars(es) + data_chars(d)
}

/// All the frame lengths fit their eight-character fields.
pub open spec fn comp_encodable(es: Seq<(Seq<char>, u64)>, d: Option<Seq<char>>) -> bool {
    &&& es.len() <= u64::MAX
    &&& forall|i: int| 0 <= i < es.len() ==> (#[trigger] es[i].0).len() <= u64::MAX
    &&& match d {
        Some(t) => t.len() <= u64::MAX,
        None => true,
    }
}

/// Entry lists append chunk by chunk.
proof fn lemma_entries_chars_snoc(es: Seq<(Seq<char>, u64)>, e: (Seq<char>, u64))
    ensures
        entries_chars(es.push(e)) == entries_chars(es) + entry_chunk(e),
    decreases es.len(),
{
    if es.len() == 0 {
        assert(es.push(e)[0] == e);
        assert(es.push(e).drop_first() =~= Seq::<(Seq<char>, u64)>::empty());
        assert(entries_chars(es.push(e).drop_first()) =~= Seq::<char>::empty());
        assert(entries_chars(es.push(e)) =~= entry_chunk(e));
        assert(entries_chars(es) + entry_chunk(e) =~= entry_chunk(e));
    } else {
        assert(es.push(e)[0] == es[0]);
        assert(es.push(e).drop_first() =~= es.drop_first().push(e));
        lemma_entries_chars_snoc(es.drop_first(), e);
        assert(entries_chars(es.push(e)) =~= entries_chars(es) + entry_chunk(e));
    }
}

/// Parses `n` entries from `pos`: the entries and the position after them.
pub open spec fn parse_entries(s: Seq<char>, pos: int, n: int) -> Option<
    (Seq<(Seq<char>, u64)>, int),
>
    decreases n,
{
    if n <= 0 {
        Some((Seq::empty(), pos))
    } else if pos < 0 || pos + 8 > s.len() {
        None
    } else {
        let alen = read_u64_at(s, pos) as int;
        if pos + 16 + alen > s.len() {
            None
        } else {
            let actor = s.subrange(pos + 8, pos + 8 + alen);
            let count = read_u64_at(s, pos + 8 + alen);
            match parse_entries(s, pos + 16 + alen, n - 1) {
                Some((rest, p)) => Some((seq![(actor, count)] + rest, p)),
                None => None,
            }
        }
    }
}

/// Parses a whole component: its entries and payload.
pub open spec fn parse_comp(s: Seq<char>) -> Option<
    (Seq<(Seq<char>, u64)>, Option<Seq<char>>),
> {
    if s.len() < 8 {
        None
    } else {
        let n = read_u64_at(s, 0) as int;
        match parse_entries(s, 8, n) {
            Some((entries, p)) => if p + 1 > s.len() {
                None
            } else if s[p] == 'N' {
                if p + 1 == s.len() {
                    Some((entries, None))
                } else {
                    None
                }
            } else if s[p] == 'S' {
                if p + 9 > s.len() {
                    None
                } else {
                    let dlen = read_u64_at(s, p + 1) as int;
                    if p + 9 + dlen == s.len() {
                        Some((entries, Some(s.subrange(p + 9, p + 9 + dlen))))
                    } else {
                        None
                    }
                }
            } else {
                None
            },
            None => None,
        }
    }
}

/// Encoded entries parse back to themselves, wherever they stand.
proof fn lemma_parse_entries_chars(s: Seq<char>, pos: int, es: Seq<(Seq<char>, u64)>)
    requires
        0 <= pos,
        pos + entries_chars(es).len() <= s.len(),
        s.subrange(pos, pos + entries_chars(es).len()) == entries_chars(es),
        forall|i: int| 0 <= i < es.len() ==> (#[trigger] es[i].0).len() <= u64::MAX,
    ensures
        parse_entries(s, pos, es.len() as int) == Some((es, pos + entries_chars(es).len())),
    decreases es.len(),
{
    if es.len() == 0 {
        assert(es =~= Seq::<(Seq<char>, u64)>::empty());
    } else {
        let e = es[0];
        let chunk = entry_chunk(e);
        let rest = es.drop_first();
        let enc = entries_chars(es);
        assert(enc == chunk + entries_chars(rest));
        assert forall|x: int, y: int| 0 <= x <= y <= enc.len() implies s.subrange(
            pos + x,
            pos + y,
        ) == #[trigger] enc.subrange(x, y) by {
            assert(s.subrange(pos + x, pos + y) =~= s.subrange(
                pos,
                pos + enc.len(),
            ).subrange(x, y));
        }
        let alen = e.0.len() as int;
        assert(enc.subrange(0, 8) =~= u64_chars(e.0.len() as u64));
        assert(s.subrange(pos, pos + 8) == u64_chars(e.0.len() as u64));
        lemma_read_u64(s, pos, e.0.len() as u64);
        assert(read_u64_at(s, pos) as int == alen);
        assert(enc.subrange(8, 8 + alen) =~= e.0);
        assert(s.subrange(pos + 8, pos + 8 + alen) == e.0);
        assert(enc.subrange(8 + alen, 16 + alen) =~= u64_chars(e.1));
        assert(s.subrange(pos + 8 + alen, pos + 16 + alen) == u64_chars(e.1));
        lemma_read_u64(s, pos + 8 + alen, e.1);
        assert(enc.subrange(16 + alen, enc.len() as int) =~= entries_chars(rest));
        assert(s.subrange(pos + 16 + alen, pos + enc.len()) == entries_chars(rest));
        assert(s.subrange(
            pos + 16 + alen,
            pos + 16 + alen + entries_chars(rest).len(),
        ) == entries_chars(rest));
        lemma_parse_entries_chars(s, pos + 16 + alen, rest);
        assert(seq![(e.0, e.1)] + rest =~= es);
        assert((e.0, e.1) == e);
    }
}

/// An encoded component parses back to exactly its entries and payload.
#[verifier::rlimit(100)]
#[verifier::spinoff_prover]
pub proof fn lemma_parse_comp_chars(es: Seq<(Seq<char>, u64)>, d: Option<Seq<char>>)
    requires
        comp_encodable(es, d),
    ensures
        parse_comp(comp_chars(es, d)) == Some((es, d)),
{
    let s = comp_chars(es, d);
    let head = u64_chars(es.len() as u64);
    let mid = entries_chars(es);
    let tail = data_chars(d);
    assert(s == head + mid + tail);
    assert(s.subrange(0, 8) =~= head);
    lemma_read_u64(s, 0, es.len() as u64);
    assert(s.subrange(8, 8 + mid.len() as int) =~= mid);
    lemma_parse_entries_chars(s, 8, es);
    let p = 8 + mid.len() as int;
    match d {
        None => {
            assert(s[p] == 'N') by {
                assert(s.len() == p + 1);
                assert(tail[0] == 'N');
            }
        },
        Some(t) => {
            assert(tail[0] == 'S');
            assert(s[p] == 'S');
            assert(s[p] != 'N') by {
                if s[p] == 'N' {
                    vstd::utf8::char_u32_cast('S', 'S' as u32);
                    vstd::utf8::char_u32_cast('N', 'S' as u32);
                }
            }
            assert(s.subrange(p + 1, p + 9) =~= u64_chars(t.len() as u64)) by {
                assert forall|i: int| 0 <= i < 8 implies #[trigger] s[p + 1 + i] == u64_chars(
                    t.len() as u64,
                )[i] by {
                    assert(tail[1 + i] == u64_chars(t.len() as u64)[i]);
                }
            }
            lemma_read_u64(s, p + 1, t.len() as u64);
            assert(s.subrange(p + 9, p + 9 + t.len()) =~= t) by {
                assert forall|i: int| 0 <= i < t.len() implies #[trigger] s[p + 9 + i] == t[i] by {
                    assert(tail[9 + i] == t[i]);
                }
            }
            assert(s.len() == p + 9 + t.len());
        },
    }
}

/// The entry views of a clock's entry list.
pub open spec fn entry_views(es: Seq<(String, u64)>) -> Seq<(Seq<char>, u64)> {
    es.map_values(|e: (String, u64)| (e.0@, e.1))
}

/// The count a decoded entry list yields for an actor: the running
/// maximum a decoder folds up with `apply`.
pub open spec fn fold_dot(es: Seq<(Seq<char>, u64)>, a: Seq<char>) -> u64
    decreases es.len(),
{
    if es.len() == 0 {
        0
    } else {
        let prev = fold_dot(es.drop_last(), a);
        if es.last().0 == a && es.last().1 > prev {
            es.last().1
        } else {
            prev
        }
    }
}

/// Folding the entries of a well-formed clock reads as the clock itself.
pub proof fn lemma_fold_dot_entries(es: Seq<(String, u64)>, a: Seq<char>)
    requires
        unique_actors(es),
    ensures
        fold_dot(entry_views(es), a) == entries_dot(es, a),
    decreases es.len(),
{
    let vs = entry_views(es);
    assert(vs.len() == es.len());
    if es.len() == 0 {
        assert(entries_dot(es, a) == 0);
    } else {
        assert(vs.last() == (es.last().0@, es.last().1));
        assert(vs.drop_last() =~= entry_views(es.drop_last()));
        assert(forall|j: int|
            0 <= j < es.drop_last().len() ==> #[trigger] es.drop_last()[j] == es[j]);
        assert(unique_actors(es.drop_last()));
        lemma_fold_dot_entries(es.drop_last(), a);
        if es.last().0@ == a {
            assert(!has_actor(es.drop_last(), a)) by {
                if has_actor(es.drop_last(), a) {
                    let j = choose|j: int|
                        0 <= j < es.drop_last().len() && es.drop_last()[j].0@ == a;
                    assert(es[j].0@ == es[es.len() - 1].0@);
                }
            }
            lemma_no_entry_dot(es.drop_last(), a);
            lemma_unique_entry_dot(es, es.len() - 1);
        } else {
            lemma_entries_dot_drop_last(es, a);
        }
    }
}

/// Relies on std's `String::push`: appends exactly the one character.
#[verifier::external_body]
fn push_char(s: &mut String, c: char)
    ensures
        final(s)@ == old(s)@.push(c),
{
    s.push(c)
}

/// Appends the greatest character, for prefix-range upper ends.
pub fn push_max_char(s: &mut String)
    ensures
        final(s)@ == old(s)@.push('\u{10ffff}'),
{
    push_char(s, '\u{10ffff}');
}

/// Appends the eight characters of `n`.
fn push_u64_chars(s: &mut String, n: u64)
    ensures
        final(s)@ == old(s)@ + u64_chars(n),
{
    push_char(s, ((n & 0xff) as u8) as char);
    push_char(s, (((n >> 8u64) & 0xff) as u8) as char);
    push_char(s, (((n >> 16u64) & 0xff) as u8) as char);
    push_char(s, (((n >> 24u64) & 0xff) as u8) as char);
    push_char(s, (((n >> 32u64) & 0xff) as u8) as char);
    push_char(s, (((n >> 40u64) & 0xff) as u8) as char);
    push_char(s, (((n >> 48u64) & 0xff) as u8) as char);
    push_char(s, (((n >> 56u64) & 0xff) as u8) as char);
    proof {
        assert((n >> 0u64) == n) by (bit_vector);
        assert(s@ =~= old(s)@ + u64_chars(n));
    }
}

/// Reads the eight-character number at `pos`.
fn read_u64(s: &str, pos: usize) -> (n: u64)
    requires
        pos + 8 <= s@.len(),
        pos + 8 <= usize::MAX,
    ensures
        n == read_u64_at(s@, pos as int),
{
    let c0 = (s.get_char(pos) as u64) & 0xff;
    let c1 = (s.get_char(pos + 1) as u64) & 0xff;
    let c2 = (s.get_char(pos + 2) as u64) & 0xff;
    let c3 = (s.get_char(pos + 3) as u64) & 0xff;
    let c4 = (s.get_char(pos + 4) as u64) & 0xff;
    let c5 = (s.get_char(pos + 5) as u64) & 0xff;
    let c6 = (s.get_char(pos + 6) as u64) & 0xff;
    let c7 = (s.get_char(pos + 7) as u64) & 0xff;
    proof {
        let x0 = c0;
        let x1 = c1;
        let x2 = c2;
        let x3 = c3;
        let x4 = c4;
        let x5 = c5;
        let x6 = c6;
        let x7 = c7;
        assert(x0 | (x1 << 8) | (x2 << 16) | (x3 << 24) | (x4 << 32) | (x5 << 40) | (x6 << 48)
            | (x7 << 56) <= u64::MAX) by (bit_vector);
    }
    c0 | (c1 << 8u64) | (c2 << 16u64) | (c3 << 24u64) | (c4 << 32u64) | (c5 << 40u64) | (c6
        << 48u64) | (c7 << 56u64)
}

/// Writes a component out as text.
pub fn encode_component(c: &VersionedComponent) -> (out: String)
    ensures
        out@ == comp_chars(entry_views(c.clock.spec_entries()), data_view(c.data)),
        comp_encodable(entry_views(c.clock.spec_entries()), data_view(c.data)),
{
    let ghost es = entry_views(c.clock.spec_entries());
    let mut out = String::new();
    let count = c.clock.entry_count();
    push_u64_chars(&mut out, count as u64);
    let mut i: usize = 0;
    while i < count
        invariant
            i <= count,
            count == c.clock.spec_entries().len(),
            es == entry_views(c.clock.spec_entries()),
            out@ == u64_chars(count as u64) + entries_chars(es.take(i as int)),
            forall|j: int| 0 <= j < i ==> (#[trigger] es[j].0).len() <= u64::MAX,
        decreases count - i,
    {
        let (actor, n) = c.clock.entry_at(i);
        let alen = actor.as_str().unicode_len();
        push_u64_chars(&mut out, alen as u64);
        out.append(actor.as_str());
        push_u64_chars(&mut out, n);
        proof {
            assert(es[i as int] == (actor@, n));
            assert(es.take(i + 1) =~= es.take(i as int).push(es[i as int]));
            lemma_entries_chars_snoc(es.take(i as int), es[i as int]);
            assert(out@ =~= u64_chars(count as u64) + entries_chars(es.take(i + 1)));
        }
        i = i + 1;
    }
    proof {
        assert(es.take(count as int) =~= es);
    }
    match &c.data {
        None => {
            proof {
                reveal_strlit("N");
            }
            out.append("N");
            proof {
                assert("N"@ =~= seq!['N']);
                assert(out@ =~= comp_chars(es, data_view(c.data)));
            }
        },
        Some(t) => {
            proof {
                reveal_strlit("S");
            }
            out.append("S");
            let tlen = t.as_str().unicode_len();
            push_u64_chars(&mut out, tlen as u64);
            out.append(t.as_str());
            proof {
                assert("S"@ =~= seq!['S']);
                assert(out@ =~= comp_chars(es, data_view(c.data)));
            }
        },
    }
    out
}

/// Reads a component back. On any text that encodes a component, the
/// result carries the same dots and payload the encoder saw.
pub fn decode_component(s: &str) -> (r: Option<VersionedComponent>)
    ensures
        match parse_comp(s@) {
            None => r is None,
            Some((entries, data)) => r matches Some(c) && c.wf() && data_view(c.data) == data
                && forall|a: Seq<char>| #[trigger] c.clock.dot(a) == fold_dot(entries, a),
        },
{
    let total = s.unicode_len();
    if total < 8 {
        return None;
    }
    let n64 = read_u64(s, 0);
    let mut clock = VClock::new();
    let ghost mut acq: Seq<(Seq<char>, u64)> = Seq::empty();
    let mut pos: usize = 8;
    let mut i: u64 = 0;
    while i < n64
        invariant
            8 <= pos <= total,
            total == s@.len(),
            i <= n64,
            n64 as int == read_u64_at(s@, 0) as int,
            clock.wf(),
            acq.len() == i,
            forall|a: Seq<char>| #[trigger] clock.dot(a) == fold_dot(acq, a),
            parse_entries(s@, 8, n64 as int) == (match parse_entries(
                s@,
                pos as int,
                n64 - i,
            ) {
                Some((rest, p)) => Some((acq + rest, p)),
                None => None::<(Seq<(Seq<char>, u64)>, int)>,
            }),
        decreases n64 - i,
    {
        if total - pos < 8 {
            proof {
                assert(parse_entries(s@, pos as int, n64 - i) is None);
            }
            return None;
        }
        let alen64 = read_u64(s, pos);
        if total - pos < 16 {
            proof {
                assert(parse_entries(s@, pos as int, n64 - i) is None);
            }
            return None;
        }
        if alen64 > (total - pos - 16) as u64 {
            proof {
                assert(parse_entries(s@, pos as int, n64 - i) is None);
            }
            return None;
        }
        let alen = alen64 as usize;
        let actor = s.substring_char(pos + 8, pos + 8 + alen);
        let count = read_u64(s, pos + 8 + alen);
        let ghost acq0 = acq;
        let ghost clock0 = clock;
        let d = Dot { actor: actor.to_owned(), counter: count };
        clock.apply(&d);
        proof {
            acq = acq.push((actor@, count));
            assert(acq.drop_last() =~= acq0);
            assert forall|a: Seq<char>| true implies #[trigger] clock.dot(a) == fold_dot(
                acq,
                a,
            ) by {
                assert(fold_dot(acq0, a) == clock0.dot(a));
            }
            assert(parse_entries(s@, pos as int, n64 - i) == (match parse_entries(
                s@,
                pos + 16 + alen,
                n64 - i - 1,
            ) {
                Some((rest, p)) => Some(
                    (seq![(actor@, count)] + rest, p),
                ),
                None => None::<(Seq<(Seq<char>, u64)>, int)>,
            }));
            assert forall|rest: Seq<(Seq<char>, u64)>| true implies acq0 + (seq![
                (actor@, count),
            ] + rest) =~= acq + rest by {}
        }
        pos = pos + 16 + alen;
        i = i + 1;
    }
    proof {
        assert(parse_entries(s@, pos as int, 0) == Some(
            (Seq::<(Seq<char>, u64)>::empty(), pos as int),
        ));
        assert(acq + Seq::<(Seq<char>, u64)>::empty() =~= acq);
        assert(parse_entries(s@, 8, n64 as int) == Some((acq, pos as int)));
    }
    if total - pos < 1 {
        return None;
    }
    let flag = s.get_char(pos);
    if flag == 'N' {
        if pos + 1 == total {
            Some(VersionedComponent { clock, data: None })
        } else {
            None
        }
    } else if flag == 'S' {
        if total - pos < 9 {
            return None;
        }
        let dlen64 = read_u64(s, pos + 1);
        if dlen64 > (total - pos - 9) as u64 {
            proof {
                assert(pos + 9 + dlen64 != s@.len());
            }
            return None;
        }
        let dlen = dlen64 as usize;
        if pos + 9 + dlen == total {
            let data = s.substring_char(pos + 9, pos + 9 + dlen);
            Some(VersionedComponent { clock, data: Some(data.to_owned()) })
        } else {
            None
        }
    } else {
        None
    }
}

} // verus!
