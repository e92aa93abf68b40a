//! Text utilities: whitespace classification, trimming, word splitting and
//! joining.

use vstd::prelude::*;

verus! {

/// The Unicode white-space property, as `char::is_whitespace` decides it.
pub open spec fn is_space(c: char) -> bool {
    c == ' ' || c == '\t' || c == '\n' || c == '\r' || c == '\u{000B}' || c == '\u{000C}'
        || c == '\u{0085}' || c == '\u{00A0}' || c == '\u{1680}' || (0x2000 <= c as u32 && c as u32
        <= 0x200A) || c == '\u{2028}' || c == '\u{2029}' || c == '\u{202F}' || c == '\u{205F}'
        || c == '\u{3000}'
}

pub(crate) fn is_space_exec(c: char) -> (r: bool)
    ensures
        r == is_space(c),
{
    c == ' ' || c == '\t' || c == '\n' || c == '\r' || c == '\u{000B}' || c == '\u{000C}'
        || c == '\u{0085}' || c == '\u{00A0}' || c == '\u{1680}' || (0x2000 <= c as u32 && c as u32
        <= 0x200A) || c == '\u{2028}' || c == '\u{2029}' || c == '\u{202F}' || c == '\u{205F}'
        || c == '\u{3000}'
}

/// `s` with its leading white space removed.
pub open spec fn spec_trim_front(s: Seq<char>) -> Seq<char>
    decreases s.len(),
{
    if s.len() > 0 && is_space(s[0]) {
        spec_trim_front(s.drop_first())
    } else {
        s
    }
}

/// `s` with its trailing white space removed.
pub open spec fn spec_trim_back(s: Seq<char>) -> Seq<char>
    decreases s.len(),
{
    if s.len() > 0 && is_space(s.last()) {
        spec_trim_back(s.drop_last())
    } else {
        s
    }
}

/// `s` with white space removed from both ends, as `str::trim` computes it.
pub open spec fn spec_trim(s: Seq<char>) -> Seq<char> {
    spec_trim_back(spec_trim_front(s))
}

/// Trims white space from both ends of a string.
pub fn trim_str(s: &str) -> (r: String)
    ensures
        r@ == spec_trim(s@),
{
    let n = s.unicode_len();
    let mut a: usize = 0;
    proof {
        assert(s@.skip(0) =~= s@);
    }
    while a < n && is_space_exec(s.get_char(a))
        invariant
            0 <= a <= n,
            n == s@.len(),
            spec_trim_front(s@) == spec_trim_front(s@.skip(a as int)),
        decreases n - a,
    {
        proof {
            let t = s@.skip(a as int);
            assert(t[0] == s@[a as int]);
            assert(t.drop_first() =~= s@.skip(a as int + 1));
        }
        a = a + 1;
    }
    proof {
        let t = s@.skip(a as int);
        assert(a < n ==> t[0] == s@[a as int]);
        assert(spec_trim_front(t) == t);
    }
    let mut b: usize = n;
    while b > a && is_space_exec(s.get_char(b - 1))
        invariant
            a <= b <= n,
            n == s@.len(),
            spec_trim_front(s@) == spec_trim_front(s@.skip(a as int)),
            spec_trim_front(s@.skip(a as int)) == s@.skip(a as int),
            spec_trim_back(s@.skip(a as int)) == spec_trim_back(
                s@.subrange(a as int, b as int),
            ),
        decreases b,
    {
        proof {
            let t = s@.subrange(a as int, b as int);
            assert(t.last() == s@[b as int - 1]);
            assert(t.drop_last() =~= s@.subrange(a as int, b as int - 1));
        }
        b = b - 1;
    }
    proof {
        assert(s@.skip(a as int) =~= s@.subrange(a as int, n as int));
        let t = s@.subrange(a as int, b as int);
        assert(b > a ==> t.last() == s@[b as int - 1]);
        assert(spec_trim_back(t) == t);
    }
    trim_helper(s, a, b)
}

/// The substring between two character positions, copied out.
fn trim_helper(s: &str, a: usize, b: usize) -> (r: String)
    requires
        a <= b <= s@.len(),
    ensures
        r@ == s@.subrange(a as int, b as int),
{
    s.substring_char(a, b).to_owned()
}

// ---------------------------------------------------------------------------
// Word splitting (on white space) and joining
// ---------------------------------------------------------------------------

/// Index of the first white-space character in `s`, or `s.len()`.
pub open spec fn first_space(s: Seq<char>) -> int
    decreases s.len(),
{
    if s.len() == 0 {
        0
    } else if is_space(s[0]) {
        0
    } else {
        1 + first_space(s.drop_first())
    }
}

pub proof fn lemma_first_space_bounds(s: Seq<char>)
    ensures
        0 <= first_space(s) <= s.len(),
        first_space(s) < s.len() ==> is_space(s[first_space(s)]),
        forall|k: int| 0 <= k < first_space(s) ==> !is_space(s[k]),
    decreases s.len(),
{
    if s.len() == 0 {
    } else if is_space(s[0]) {
    } else {
        lemma_first_space_bounds(s.drop_first());
        assert forall|k: int| 0 <= k < first_space(s) implies !is_space(s[k]) by {
            if k > 0 {
                assert(s[k] == s.drop_first()[k - 1]);
            }
        }
    }
}

/// The words of `s`: maximal non-empty runs of non-white-space characters, as
/// `str::split_whitespace` yields them.
pub open spec fn spec_words(s: Seq<char>) -> Seq<Seq<char>>
    decreases s.len(),
    via spec_words_decreases
{
    let i = first_space(s);
    if i == s.len() {
        if s.len() > 0 {
            seq![s]
        } else {
            Seq::<Seq<char>>::empty()
        }
    } else {
        (if i > 0 {
            seq![s.take(i)]
        } else {
            Seq::<Seq<char>>::empty()
        }) + spec_words(s.skip(i + 1))
    }
}

#[via_fn]
proof fn spec_words_decreases(s: Seq<char>) {
    lemma_first_space_bounds(s);
}

pub proof fn lemma_words_no_space(a: Seq<char>)
    requires
        forall|k: int| 0 <= k < a.len() ==> !is_space(a[k]),
    ensures
        spec_words(a) == if a.len() > 0 {
            seq![a]
        } else {
            Seq::<Seq<char>>::empty()
        },
{
    lemma_first_space_bounds(a);
    if first_space(a) < a.len() {
        assert(is_space(a[first_space(a)]));
        assert(false);
    }
}

pub proof fn lemma_first_space_prefix(a: Seq<char>, b: Seq<char>)
    requires
        forall|k: int| 0 <= k < a.len() ==> !is_space(a[k]),
    ensures
        first_space(a + b) == a.len() + first_space(b),
    decreases a.len(),
{
    if a.len() == 0 {
        assert(a + b =~= b);
    } else {
        assert(!is_space((a + b)[0]));
        assert((a + b).drop_first() =~= a.drop_first() + b);
        lemma_first_space_prefix(a.drop_first(), b);
    }
}

pub proof fn lemma_words_split(a: Seq<char>, rest: Seq<char>)
    requires
        forall|k: int| 0 <= k < a.len() ==> !is_space(a[k]),
        rest.len() > 0,
        is_space(rest[0]),
    ensures
        spec_words(a + rest) == (if a.len() > 0 {
            seq![a]
        } else {
            Seq::<Seq<char>>::empty()
        }) + spec_words(rest.drop_first()),
{
    let s = a + rest;
    lemma_first_space_prefix(a, rest);
    assert(first_space(rest) == 0);
    let i = first_space(s);
    assert(i == a.len());
    assert(i < s.len());
    assert(s.take(i) =~= a);
    assert(s.skip(i + 1) =~= rest.drop_first());
}

/// Splits a string into its white-space-separated words.
pub(crate) fn split_words(s: &str) -> (words: Vec<String>)
    ensures
        words@.len() == spec_words(s@).len(),
        forall|k: int| 0 <= k < words@.len() ==> words@[k]@ == spec_words(s@)[k],
{
    let n = s.unicode_len();
    let mut words: Vec<String> = Vec::new();
    let ghost mut done: Seq<Seq<char>> = Seq::<Seq<char>>::empty();
    let mut start: usize = 0;
    let mut i: usize = 0;
    proof {
        assert(s@.skip(0) =~= s@);
        assert(Seq::<Seq<char>>::empty() + spec_words(s@) =~= spec_words(s@));
    }
    while i < n
        invariant
            0 <= start <= i <= n,
            n == s@.len(),
            forall|k: int| start <= k < i ==> !is_space(s@[k]),
            done.len() == words@.len(),
            forall|k: int| 0 <= k < done.len() ==> words@[k]@ == done[k],
            spec_words(s@) == done + spec_words(s@.skip(start as int)),
        decreases n - i,
    {
        let c = s.get_char(i);
        if is_space_exec(c) {
            let ghost frag = s@.subrange(start as int, i as int);
            let ghost rest = s@.skip(i as int);
            proof {
                assert(s@.skip(start as int) =~= frag + rest);
                assert(rest[0] == s@[i as int]);
                lemma_words_split(frag, rest);
                assert(rest.drop_first() =~= s@.skip(i as int + 1));
            }
            if i - start > 0 {
                let w = s.substring_char(start, i).to_owned();
                let ghost tv = w@;
                words.push(w);
                proof {
                    assert(tv == frag);
                    let old_done = done;
                    done = done.push(frag);
                    assert(done =~= old_done + seq![frag]);
                    assert(old_done + (seq![frag] + spec_words(s@.skip(i as int + 1))) =~= (
                    old_done + seq![frag]) + spec_words(s@.skip(i as int + 1)));
                }
            } else {
                proof {
                    assert(Seq::<Seq<char>>::empty() + spec_words(s@.skip(i as int + 1))
                        =~= spec_words(s@.skip(i as int + 1)));
                }
            }
            start = i + 1;
        }
        i = i + 1;
    }
    let ghost tail = s@.skip(start as int);
    proof {
        lemma_words_no_space(tail);
    }
    if n - start > 0 {
        let w = s.substring_char(start, n).to_owned();
        let ghost tv = w@;
        words.push(w);
        proof {
            assert(tv =~= tail);
            let old_done = done;
            done = done.push(tail);
            assert(done =~= old_done + seq![tail]);
            assert(seq![tail] + Seq::<Seq<char>>::empty() =~= seq![tail]);
            assert(old_done + (seq![tail] + Seq::<Seq<char>>::empty()) =~= (old_done + seq![tail])
                + Seq::<Seq<char>>::empty());
            assert(spec_words(s@) =~= done);
        }
    } else {
        proof {
            assert(done + Seq::<Seq<char>>::empty() =~= done);
            assert(spec_words(s@) =~= done);
        }
    }
    words
}

/// The elements of `ws` concatenated with `sep` between neighbours.
pub open spec fn spec_join(ws: Seq<Seq<char>>, sep: Seq<char>) -> Seq<char>
    decreases ws.len(),
{
    if ws.len() == 0 {
        Seq::<char>::empty()
    } else if ws.len() == 1 {
        ws[0]
    } else {
        ws[0] + sep + spec_join(ws.drop_first(), sep)
    }
}

pub proof fn lemma_join_push(ws: Seq<Seq<char>>, x: Seq<char>, sep: Seq<char>)
    ensures
        spec_join(ws.push(x), sep) == if ws.len() == 0 {
            x
        } else {
            spec_join(ws, sep) + sep + x
        },
    decreases ws.len(),
{
    if ws.len() == 0 {
        assert(ws.push(x).len() == 1);
        assert(ws.push(x)[0] == x);
    } else if ws.len() == 1 {
        assert(ws.push(x).drop_first() =~= seq![x]);
        assert(spec_join(seq![x], sep) == x);
        assert(ws.push(x)[0] == ws[0]);
    } else {
        assert(ws.push(x).drop_first() =~= ws.drop_first().push(x));
        lemma_join_push(ws.drop_first(), x, sep);
        assert(ws.push(x)[0] == ws[0]);
        assert((ws[0] + sep + (spec_join(ws.drop_first(), sep) + sep + x)) =~= ((ws[0] + sep
            + spec_join(ws.drop_first(), sep)) + sep + x));
    }
}

/// Joins at most the first `limit` strings of `items` with `sep` between them.
pub(crate) fn join_prefix(items: &Vec<String>, limit: usize, sep: &str) -> (r: String)
    ensures
        r@ == spec_join(
            views_of(items@).take(if limit <= items@.len() {
                limit as int
            } else {
                items@.len() as int
            }),
            sep@,
        ),
{
    let count = if limit <= items.len() {
        limit
    } else {
        items.len()
    };
    let mut r = String::new();
    let mut k: usize = 0;
    proof {
        assert(views_of(items@).take(0) =~= Seq::<Seq<char>>::empty());
    }
    while k < count
        invariant
            0 <= k <= count <= items@.len(),
            r@ == spec_join(views_of(items@).take(k as int), sep@),
        decreases count - k,
    {
        if k > 0 {
            r.append(sep);
        }
        r.append(items[k].as_str());
        proof {
            let vs = views_of(items@);
            assert(vs.take(k as int + 1) =~= vs.take(k as int).push(vs[k as int]));
            lemma_join_push(vs.take(k as int), vs[k as int], sep@);
            assert(vs[k as int] == items@[k as int]@);
        }
        k = k + 1;
    }
    r
}

/// The character sequences of a list of strings.
pub open spec fn views_of(ts: Seq<String>) -> Seq<Seq<char>> {
    ts.map_values(|t: String| t@)
}

/// One string appended to a list appends its characters to the list's view.
pub proof fn lemma_views_push(prev: Seq<String>, cur: Seq<String>, v: Seq<char>)
    requires
        cur.len() == prev.len() + 1,
        forall|q: int| 0 <= q < prev.len() ==> cur[q] == prev[q],
        cur.last()@ == v,
    ensures
        views_of(cur) == views_of(prev) + seq![v],
{
    assert forall|q: int| 0 <= q < cur.len() implies #[trigger] views_of(cur)[q] == (views_of(prev)
        + seq![v])[q] by {
        if q < prev.len() {
            assert(cur[q] == prev[q]);
        }
    }
    assert(views_of(cur) =~= views_of(prev) + seq![v]);
}

} // verus!
