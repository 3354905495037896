//! The segmenter: a dataset splits into the maximal runs of non-whitespace
//! characters, in order; whitespace only separates.
use vstd::prelude::*;
use vstd::string::StrSliceExecFns;

verus! {

/// The characters that `char::is_whitespace` accepts (Unicode White_Space).
pub open spec fn is_whitespace(c: char) -> bool {
    ('\u{9}' <= c && c <= '\u{d}') || c == ' ' || c == '\u{85}' || c == '\u{a0}' || c
        == '\u{1680}' || ('\u{2000}' <= c && c <= '\u{200a}') || c == '\u{2028}' || c
        == '\u{2029}' || c == '\u{202f}' || c == '\u{205f}' || c == '\u{3000}'
}

/// The segments of `s`, read left to right: a whitespace character ends the
/// current segment, a non-whitespace character extends it or, after whitespace
/// or at the start, opens a new one.
pub open spec fn segments(s: Seq<char>) -> Seq<Seq<char>>
    decreases s.len(),
{
    if s.len() == 0 {
        Seq::empty()
    } else {
        let prev = segments(s.drop_last());
        let c = s.last();
        if is_whitespace(c) {
            prev
        } else if s.len() >= 2 && !is_whitespace(s[s.len() - 2]) {
            prev.update(prev.len() - 1, prev.last().push(c))
        } else {
            prev.push(seq![c])
        }
    }
}

/// The character views of a list of strings.
pub open spec fn texts(v: Seq<String>) -> Seq<Seq<char>> {
    v.map_values(|t: String| t@)
}

/// Whether `c` is whitespace.
pub fn is_space(c: char) -> (r: bool)
    ensures
        r == is_whitespace(c),
{
    ('\u{9}' <= c && c <= '\u{d}') || c == ' ' || c == '\u{85}' || c == '\u{a0}' || c
        == '\u{1680}' || ('\u{2000}' <= c && c <= '\u{200a}') || c == '\u{2028}' || c
        == '\u{2029}' || c == '\u{202f}' || c == '\u{205f}' || c == '\u{3000}'
}

/// Splits `data` into its segments, in order.
pub fn split_segments(data: &str) -> (r: Vec<String>)
    ensures
        texts(r@) == segments(data@),
{
    let ghost s = data@;
    let n = data.unicode_len();
    let mut out: Vec<String> = Vec::new();
    let mut open = false;
    let mut start: usize = 0;
    let mut i: usize = 0;
    for c in it: data.chars()
        invariant
            it.seq() == s,
            s == data@,
            n == s.len(),
            i == it.index(),
            open == (i > 0 && !is_whitespace(s[i - 1])),
            open ==> {
                &&& start < i
                &&& segments(s.take(i as int)).len() > 0
                &&& segments(s.take(i as int)).last() == s.subrange(start as int, i as int)
                &&& texts(out@) == segments(s.take(i as int)).drop_last()
            },
            !open ==> texts(out@) == segments(s.take(i as int)),
    {
        let ghost prev = segments(s.take(i as int));
        let ghost next = s.take(i + 1);
        proof {
            assert(next.drop_last() == s.take(i as int));
            assert(s[i as int] == c);
            assert(next.last() == c);
            if i > 0 {
                assert(next[i - 1] == s[i - 1]);
            }
        }
        if is_space(c) {
            if open {
                let ghost before = texts(out@);
                let seg = data.substring_char(start, i).to_owned();
                out.push(seg);
                proof {
                    assert(texts(out@) =~= before.push(seg@));
                    assert(prev =~= prev.drop_last().push(prev.last()));
                }
            }
            open = false;
        } else {
            if open {
                proof {
                    let upd = prev.update(prev.len() - 1, prev.last().push(c));
                    assert(upd.drop_last() =~= prev.drop_last());
                    assert(s.subrange(start as int, i + 1) =~= s.subrange(start as int, i as int).push(
                        c,
                    ));
                }
            } else {
                start = i;
                proof {
                    assert(s.subrange(i as int, i + 1) =~= seq![c]);
                    assert(prev.push(seq![c]).drop_last() =~= prev);
                }
            }
            open = true;
        }
        i = i + 1;
    }
    proof {
        assert(s.take(i as int) =~= s);
    }
    if open {
        let ghost before = texts(out@);
        let ghost all = segments(s);
        let seg = data.substring_char(start, i).to_owned();
        out.push(seg);
        proof {
            assert(texts(out@) =~= before.push(seg@));
            assert(all =~= all.drop_last().push(all.last()));
        }
    }
    out
}

} // verus!
