//! Fuzzy keyword matching over attribute strings.
//!
//! An attribute value is split into tokens on a fixed separator set, tokens of
//! at most one character are dropped, and every surviving token is compared,
//! case-insensitively, against every keyword using the Levenshtein edit
//! distance with a tolerance of `max(1, len(keyword) / 3)` characters.

use vstd::prelude::*;

verus! {

// ---------------------------------------------------------------------------
// Separators and tokenization
// ---------------------------------------------------------------------------

/// The fixed separator set: punctuation commonly used inside class names,
/// plus the digits 1 through 9.
pub open spec fn is_separator(c: char) -> bool {
    c == '-' || c == ' ' || c == ':' || c == '@' || c == '_' || c == '.' || c == ','
        || c == '1' || c == '2' || c == '3' || c == '4' || c == '5' || c == '6' || c == '7'
        || c == '8' || c == '9'
}

pub(crate) fn is_separator_exec(c: char) -> (r: bool)
    ensures
        r == is_separator(c),
{
    c == '-' || c == ' ' || c == ':' || c == '@' || c == '_' || c == '.' || c == ','
        || c == '1' || c == '2' || c == '3' || c == '4' || c == '5' || c == '6' || c == '7'
        || c == '8' || c == '9'
}

/// Index of the first separator in `s`, or `s.len()` if there is none.
pub open spec fn first_sep(s: Seq<char>) -> int
    decreases s.len(),
{
    if s.len() == 0 {
        0
    } else if is_separator(s[0]) {
        0
    } else {
        1 + first_sep(s.drop_first())
    }
}

pub proof fn lemma_first_sep_bounds(s: Seq<char>)
    ensures
        0 <= first_sep(s) <= s.len(),
        first_sep(s) < s.len() ==> is_separator(s[first_sep(s)]),
        forall|k: int| 0 <= k < first_sep(s) ==> !is_separator(s[k]),
    decreases s.len(),
{
    if s.len() == 0 {
    } else if is_separator(s[0]) {
    } else {
        lemma_first_sep_bounds(s.drop_first());
        assert(forall|k: int| 0 <= k < first_sep(s.drop_first()) ==> !is_separator(
            s.drop_first()[k],
        ));
        assert forall|k: int| 0 <= k < first_sep(s) implies !is_separator(s[k]) by {
            if k > 0 {
                assert(s[k] == s.drop_first()[k - 1]);
            }
        }
    }
}

/// The tokens of `s`: the fragments between separators, keeping only those of
/// more than one character.
pub open spec fn spec_tokens(s: Seq<char>) -> Seq<Seq<char>>
    decreases s.len(),
    via spec_tokens_decreases
{
    let i = first_sep(s);
    if i == s.len() {
        if s.len() > 1 {
            seq![s]
        } else {
            Seq::<Seq<char>>::empty()
        }
    } else {
        (if i > 1 {
            seq![s.take(i)]
        } else {
            Seq::<Seq<char>>::empty()
        }) + spec_tokens(s.skip(i + 1))
    }
}

#[via_fn]
proof fn spec_tokens_decreases(s: Seq<char>) {
    lemma_first_sep_bounds(s);
}

/// If no character of `a` is a separator, `a` is its own single token (or no
/// token at all, when it is too short).
pub proof fn lemma_tokens_no_separator(a: Seq<char>)
    requires
        forall|k: int| 0 <= k < a.len() ==> !is_separator(a[k]),
    ensures
        spec_tokens(a) == if a.len() > 1 {
            seq![a]
        } else {
            Seq::<Seq<char>>::empty()
        },
{
    lemma_first_sep_bounds(a);
    if first_sep(a) < a.len() {
        assert(is_separator(a[first_sep(a)]));
        assert(false);
    }
}

/// A separator-free prefix shifts the first separator of what follows it.
pub proof fn lemma_first_sep_prefix(a: Seq<char>, b: Seq<char>)
    requires
        forall|k: int| 0 <= k < a.len() ==> !is_separator(a[k]),
    ensures
        first_sep(a + b) == a.len() + first_sep(b),
    decreases a.len(),
{
    if a.len() == 0 {
        assert(a + b =~= b);
    } else {
        assert(!is_separator((a + b)[0]));
        assert((a + b).drop_first() =~= a.drop_first() + b);
        lemma_first_sep_prefix(a.drop_first(), b);
    }
}

/// Tokenizing a separator-free fragment followed by a separator emits the
/// fragment (when long enough) and continues after the separator.
pub proof fn lemma_tokens_split(a: Seq<char>, rest: Seq<char>)
    requires
        forall|k: int| 0 <= k < a.len() ==> !is_separator(a[k]),
        rest.len() > 0,
        is_separator(rest[0]),
    ensures
        spec_tokens(a + rest) == (if a.len() > 1 {
            seq![a]
        } else {
            Seq::<Seq<char>>::empty()
        }) + spec_tokens(rest.drop_first()),
{
    let s = a + rest;
    lemma_first_sep_prefix(a, rest);
    assert(first_sep(rest) == 0);
    let i = first_sep(s);
    assert(i == a.len());
    assert(i < s.len());
    assert(s.take(i) =~= a);
    assert(s.skip(i + 1) =~= rest.drop_first());
}

// ---------------------------------------------------------------------------
// Levenshtein distance
// ---------------------------------------------------------------------------

pub open spec fn min3(x: nat, y: nat, z: nat) -> nat {
    if x <= y && x <= z {
        x
    } else if y <= z {
        y
    } else {
        z
    }
}

/// Classic Levenshtein edit distance over code points: insertions, deletions
/// and substitutions each cost one.
pub open spec fn lev(a: Seq<char>, b: Seq<char>) -> nat
    decreases a.len() + b.len(),
{
    if a.len() == 0 {
        b.len()
    } else if b.len() == 0 {
        a.len()
    } else {
        let cost: nat = if a.last() == b.last() {
            0
        } else {
            1
        };
        min3(
            lev(a.drop_last(), b) + 1,
            lev(a, b.drop_last()) + 1,
            lev(a.drop_last(), b.drop_last()) + cost,
        )
    }
}

/// The distance of a string to itself is zero.
pub proof fn lemma_lev_self(a: Seq<char>)
    ensures
        lev(a, a) == 0,
    decreases a.len(),
{
    if a.len() > 0 {
        lemma_lev_self(a.drop_last());
    }
}

/// The distance never exceeds the longer length.
pub proof fn lemma_lev_le_max(a: Seq<char>, b: Seq<char>)
    ensures
        lev(a, b) <= a.len() || lev(a, b) <= b.len(),
        lev(a, b) <= a.len() + b.len(),
    decreases a.len() + b.len(),
{
    if a.len() == 0 || b.len() == 0 {
    } else {
        lemma_lev_le_max(a.drop_last(), b);
        lemma_lev_le_max(a, b.drop_last());
        lemma_lev_le_max(a.drop_last(), b.drop_last());
    }
}

/// Number of positions at which two strings of equal length disagree
/// (comparing from the back; extra characters of the longer string are
/// ignored, which does not arise at equal lengths).
pub open spec fn subst_count(a: Seq<char>, b: Seq<char>) -> nat
    decreases a.len(),
{
    if a.len() == 0 || b.len() == 0 {
        0
    } else {
        subst_count(a.drop_last(), b.drop_last()) + (if a.last() == b.last() {
            0nat
        } else {
            1nat
        })
    }
}

/// On equal lengths, the edit distance is at most the number of differing
/// positions: substitutions alone suffice.
pub proof fn lemma_lev_le_subst(a: Seq<char>, b: Seq<char>)
    requires
        a.len() == b.len(),
    ensures
        lev(a, b) <= subst_count(a, b),
    decreases a.len(),
{
    if a.len() > 0 {
        lemma_lev_le_subst(a.drop_last(), b.drop_last());
    }
}

/// A distance of zero means the strings are equal.
pub proof fn lemma_lev_zero(a: Seq<char>, b: Seq<char>)
    requires
        lev(a, b) == 0,
    ensures
        a == b,
    decreases a.len() + b.len(),
{
    if a.len() == 0 {
        assert(a =~= b);
    } else if b.len() == 0 {
        assert(false);
    } else {
        assert(lev(a.drop_last(), b.drop_last()) == 0 && a.last() == b.last());
        lemma_lev_zero(a.drop_last(), b.drop_last());
        assert(a =~= a.drop_last().push(a.last()));
        assert(a =~= b);
    }
}

/// Equal seqs disagree nowhere.
pub proof fn lemma_subst_self(a: Seq<char>)
    ensures
        subst_count(a, a) == 0,
    decreases a.len(),
{
    if a.len() > 0 {
        lemma_subst_self(a.drop_last());
    }
}

/// On equal lengths, a distance of one means exactly one substitution.
pub proof fn lemma_lev_one_subst(a: Seq<char>, b: Seq<char>)
    requires
        a.len() == b.len(),
        lev(a, b) == 1,
    ensures
        subst_count(a, b) == 1,
    decreases a.len(),
{
    if a.len() == 0 {
        assert(false);
    } else {
        let da = a.drop_last();
        let db = b.drop_last();
        if lev(da, b) == 0 {
            lemma_lev_zero(da, b);
            assert(false);
        }
        if lev(a, db) == 0 {
            lemma_lev_zero(a, db);
            assert(false);
        }
        if a.last() == b.last() {
            assert(lev(da, db) == 1);
            lemma_lev_one_subst(da, db);
        } else {
            assert(lev(da, db) == 0);
            lemma_lev_zero(da, db);
            lemma_subst_self(da);
        }
    }
}

// ---------------------------------------------------------------------------
// Lowercasing (trusted) and the matching rule
// ---------------------------------------------------------------------------

/// The character is in the ASCII range.
pub open spec fn ascii_char(c: char) -> bool {
    (c as u32) < 128
}

/// Every character is in the ASCII range.
pub open spec fn ascii_seq(s: Seq<char>) -> bool {
    forall|i: int| 0 <= i < s.len() ==> ascii_char(#[trigger] s[i])
}

/// The Unicode lowercasing of a string, as `str::to_lowercase` computes it.
pub uninterp spec fn lower_of(s: Seq<char>) -> Seq<char>;

/// Relies on `str::to_lowercase`: the result depends on the input characters
/// alone, and an ASCII string is lowercased character for character, so it
/// keeps its length.
#[verifier::external_body]
fn lowercase_str(s: &str) -> (r: String)
    ensures
        r@ == lower_of(s@),
        ascii_seq(s@) ==> r@.len() == s@.len(),
{
    s.to_lowercase()
}

/// Lowercases every word of a list.
pub fn to_lowercase(words: &Vec<String>) -> (r: Vec<String>)
    ensures
        r@.len() == words@.len(),
        forall|i: int| 0 <= i < words@.len() ==> r@[i]@ == lower_of(words@[i]@),
{
    let mut r: Vec<String> = Vec::new();
    let mut i: usize = 0;
    while i < words.len()
        invariant
            0 <= i <= words@.len(),
            r@.len() == i,
            forall|k: int| 0 <= k < i ==> r@[k]@ == lower_of(words@[k]@),
        decreases words@.len() - i,
    {
        r.push(lowercase_str(words[i].as_str()));
        i = i + 1;
    }
    r
}

/// Allowed edit distance for a keyword: a third of its length, at least one.
pub open spec fn tolerance(k: Seq<char>) -> nat {
    if k.len() / 3 > 1 {
        k.len() / 3
    } else {
        1
    }
}

/// A token matches a keyword when the distance of their lowercase forms is
/// within the keyword's tolerance.
pub open spec fn token_matches(t: Seq<char>, k: Seq<char>) -> bool {
    lev(lower_of(t), lower_of(k)) <= tolerance(lower_of(k))
}

/// Some token of `s` matches some keyword.  An empty keyword set (or a string
/// without tokens) is vacuously unrelated.
pub open spec fn spec_is_related(s: Seq<char>, keywords: Seq<Seq<char>>) -> bool {
    exists|i: int, j: int|
        0 <= i < spec_tokens(s).len() && 0 <= j < keywords.len() && #[trigger] token_matches(
            spec_tokens(s)[i],
            keywords[j],
        )
}

// ---------------------------------------------------------------------------
// Executable code
// ---------------------------------------------------------------------------

/// The character sequences of a list of string slices.
pub open spec fn views_of_strs(ks: Seq<&str>) -> Seq<Seq<char>> {
    ks.map_values(|k: &str| k@)
}

/// Splits `s` on the separator set and keeps the fragments longer than one
/// character.
pub(crate) fn tokenize(s: &str) -> (tokens: Vec<String>)
    ensures
        tokens@.len() == spec_tokens(s@).len(),
        forall|k: int| 0 <= k < tokens@.len() ==> tokens@[k]@ == spec_tokens(s@)[k],
{
    let n = s.unicode_len();
    let mut tokens: Vec<String> = Vec::new();
    let ghost mut done: Seq<Seq<char>> = Seq::<Seq<char>>::empty();
    let mut start: usize = 0;
    let mut i: usize = 0;
    proof {
        assert(s@.skip(0) =~= s@);
        assert(Seq::<Seq<char>>::empty() + spec_tokens(s@) =~= spec_tokens(s@));
    }
    while i < n
        invariant
            0 <= start <= i <= n,
            n == s@.len(),
            forall|k: int| start <= k < i ==> !is_separator(s@[k]),
            done.len() == tokens@.len(),
            forall|k: int| 0 <= k < done.len() ==> tokens@[k]@ == done[k],
            spec_tokens(s@) == done + spec_tokens(s@.skip(start as int)),
        decreases n - i,
    {
        let c = s.get_char(i);
        if is_separator_exec(c) {
            let ghost frag = s@.subrange(start as int, i as int);
            let ghost rest = s@.skip(i as int);
            proof {
                assert(s@.skip(start as int) =~= frag + rest);
                assert(rest[0] == s@[i as int]);
                lemma_tokens_split(frag, rest);
                assert(rest.drop_first() =~= s@.skip(i as int + 1));
            }
            if i - start > 1 {
                let tok = s.substring_char(start, i).to_owned();
                let ghost tv = tok@;
                tokens.push(tok);
                proof {
                    assert(tv == frag);
                    let old_done = done;
                    done = done.push(frag);
                    assert(done =~= old_done + seq![frag]);
                    assert(old_done + (seq![frag] + spec_tokens(s@.skip(i as int + 1))) =~= (
                    old_done + seq![frag]) + spec_tokens(s@.skip(i as int + 1)));
                }
            } else {
                proof {
                    assert(Seq::<Seq<char>>::empty() + spec_tokens(s@.skip(i as int + 1))
                        =~= spec_tokens(s@.skip(i as int + 1)));
                }
            }
            start = i + 1;
        }
        i = i + 1;
    }
    let ghost tail = s@.skip(start as int);
    proof {
        lemma_tokens_no_separator(tail);
    }
    if n - start > 1 {
        let tok = s.substring_char(start, n).to_owned();
        let ghost tv = tok@;
        tokens.push(tok);
        proof {
            assert(tv =~= tail);
            let old_done = done;
            done = done.push(tail);
            assert(done =~= old_done + seq![tail]);
            assert(old_done + (seq![tail] + Seq::<Seq<char>>::empty()) =~= (old_done + seq![tail])
                + Seq::<Seq<char>>::empty());
            assert(seq![tail] + Seq::<Seq<char>>::empty() =~= seq![tail]);
            assert(spec_tokens(s@) =~= done);
        }
    } else {
        proof {
            assert(done + Seq::<Seq<char>>::empty() =~= done);
            assert(spec_tokens(s@) =~= done);
        }
    }
    tokens
}

/// The characters of a string, one element each.
fn chars_of(s: &str) -> (v: Vec<char>)
    ensures
        v@ == s@,
{
    let n = s.unicode_len();
    let mut v: Vec<char> = Vec::new();
    let mut i: usize = 0;
    while i < n
        invariant
            0 <= i <= n,
            n == s@.len(),
            v@ =~= s@.take(i as int),
        decreases n - i,
    {
        v.push(s.get_char(i));
        proof {
            assert(v@ =~= s@.take(i as int + 1));
        }
        i = i + 1;
    }
    proof {
        assert(s@.take(n as int) =~= s@);
    }
    v
}

/// Levenshtein edit distance between two strings, over code points, by the
/// classic dynamic program.
pub fn levenshtein_distance(s1: &str, s2: &str) -> (d: usize)
    ensures
        d == lev(s1@, s2@),
{
    let a = chars_of(s1);
    let b = chars_of(s2);
    let m = a.len();
    let n = b.len();
    // prev[j] == lev of the first r characters of a and the first j of b
    let mut prev: Vec<usize> = Vec::new();
    prev.push(0);
    let mut j: usize = 0;
    while j < n
        invariant
            0 <= j <= n,
            n == s2@.len(),
            b@ == s2@,
            prev@.len() == j + 1,
            forall|q: int| 0 <= q <= j ==> prev@[q] == lev(Seq::<char>::empty(), s2@.take(q)),
        decreases n - j,
    {
        proof {
            assert(s2@.take(j as int + 1).len() == j as int + 1);
        }
        prev.push(j + 1);
        j = j + 1;
    }
    let mut r: usize = 0;
    while r < m
        invariant
            0 <= r <= m,
            m == s1@.len(),
            n == s2@.len(),
            a@ == s1@,
            b@ == s2@,
            prev@.len() == n + 1,
            forall|q: int| 0 <= q <= n ==> prev@[q] == lev(s1@.take(r as int), s2@.take(q)),
        decreases m - r,
    {
        let mut cur: Vec<usize> = Vec::new();
        cur.push(r + 1);
        proof {
            assert(s1@.take(r as int + 1).len() == r + 1);
            assert(lev(s1@.take(r as int + 1), s2@.take(0)) == r + 1);
        }
        let mut j2: usize = 0;
        while j2 < n
            invariant
                0 <= j2 <= n,
                r < m,
                m == s1@.len(),
                n == s2@.len(),
                a@ == s1@,
                b@ == s2@,
                prev@.len() == n + 1,
                forall|q: int| 0 <= q <= n ==> prev@[q] == lev(s1@.take(r as int), s2@.take(q)),
                cur@.len() == j2 + 1,
                forall|q: int|
                    0 <= q <= j2 ==> cur@[q] == lev(s1@.take(r as int + 1), s2@.take(q)),
            decreases n - j2,
        {
            let cost: usize = if a[r] == b[j2] {
                0
            } else {
                1
            };
            let del = prev[j2 + 1];
            let ins = cur[j2];
            let diag = prev[j2];
            proof {
                lemma_lev_le_max(s1@.take(r as int), s2@.take(j2 as int));
            }
            let low = if del < ins {
                del
            } else {
                ins
            };
            let val = if diag + cost <= low {
                diag + cost
            } else {
                low + 1
            };
            proof {
                let pa = s1@.take(r as int + 1);
                let pb = s2@.take(j2 as int + 1);
                assert(pa.len() > 0 && pb.len() > 0);
                assert(pa.drop_last() =~= s1@.take(r as int));
                assert(pb.drop_last() =~= s2@.take(j2 as int));
                assert(pa.last() == s1@[r as int]);
                assert(pb.last() == s2@[j2 as int]);
                assert(lev(pa, pb) == min3(
                    lev(s1@.take(r as int), pb) + 1,
                    lev(pa, s2@.take(j2 as int)) + 1,
                    lev(s1@.take(r as int), s2@.take(j2 as int)) + (if pa.last() == pb.last() {
                        0nat
                    } else {
                        1nat
                    }),
                ));
                assert(val == lev(pa, pb));
            }
            cur.push(val);
            j2 = j2 + 1;
        }
        prev = cur;
        r = r + 1;
    }
    proof {
        assert(s1@.take(m as int) =~= s1@);
        assert(s2@.take(n as int) =~= s2@);
    }
    prev[n]
}

/// Does any token of `input_string` approximately match any keyword?
pub fn is_related(input_string: &str, keywords: &[&str]) -> (r: bool)
    ensures
        r == spec_is_related(input_string@, views_of_strs(keywords@)),
{
    let ghost kview = views_of_strs(keywords@);
    let tokens = tokenize(input_string);
    let input_words = to_lowercase(&tokens);
    let mut kws: Vec<String> = Vec::new();
    let mut ki: usize = 0;
    while ki < keywords.len()
        invariant
            0 <= ki <= keywords@.len(),
            kws@.len() == ki,
            kview == keywords@.map_values(|k: &str| k@),
            forall|q: int| 0 <= q < ki ==> kws@[q]@ == kview[q],
        decreases keywords@.len() - ki,
    {
        proof {
            assert(kview[ki as int] == keywords@[ki as int]@);
        }
        kws.push(keywords[ki].to_owned());
        ki = ki + 1;
    }
    let keywords_lowercase = to_lowercase(&kws);
    let ghost toks = spec_tokens(input_string@);
    let mut result = false;
    let mut wi: usize = 0;
    while wi < input_words.len()
        invariant
            0 <= wi <= input_words@.len(),
            toks == spec_tokens(input_string@),
            kview == views_of_strs(keywords@),
            input_words@.len() == toks.len(),
            keywords_lowercase@.len() == kview.len(),
            forall|q: int| 0 <= q < toks.len() ==> input_words@[q]@ == lower_of(toks[q]),
            forall|q: int| 0 <= q < kview.len() ==> keywords_lowercase@[q]@ == lower_of(kview[q]),
            result ==> spec_is_related(input_string@, kview),
            !result ==> forall|i: int, j: int|
                0 <= i < wi && 0 <= j < kview.len() ==> !(#[trigger] token_matches(
                    toks[i],
                    kview[j],
                )),
        decreases input_words@.len() - wi,
    {
        let mut kj: usize = 0;
        while kj < keywords_lowercase.len()
            invariant
                0 <= kj <= kview.len(),
                toks == spec_tokens(input_string@),
                kview == views_of_strs(keywords@),
                wi < toks.len(),
                input_words@.len() == toks.len(),
                keywords_lowercase@.len() == kview.len(),
                forall|q: int| 0 <= q < toks.len() ==> input_words@[q]@ == lower_of(toks[q]),
                forall|q: int|
                    0 <= q < kview.len() ==> keywords_lowercase@[q]@ == lower_of(kview[q]),
                result ==> spec_is_related(input_string@, kview),
                !result ==> forall|i: int, j: int|
                    0 <= i < wi && 0 <= j < kview.len() ==> !(#[trigger] token_matches(
                        toks[i],
                        kview[j],
                    )),
                !result ==> forall|j: int|
                    0 <= j < kj ==> !(#[trigger] token_matches(toks[wi as int], kview[j])),
            decreases kview.len() - kj,
        {
            let keyword = &keywords_lowercase[kj];
            let klen = keyword.as_str().unicode_len();
            let third = klen / 3;
            let max_edit_distance: usize = if third > 1 {
                third
            } else {
                1
            };
            let edit_distance = levenshtein_distance(
                input_words[wi].as_str(),
                keyword.as_str(),
            );
            if edit_distance <= max_edit_distance {
                result = true;
                proof {
                    assert(input_words@[wi as int]@ == lower_of(toks[wi as int]));
                    assert(keywords_lowercase@[kj as int]@ == lower_of(kview[kj as int]));
                    assert(edit_distance == lev(
                        lower_of(toks[wi as int]),
                        lower_of(kview[kj as int]),
                    ));
                    assert(klen == lower_of(kview[kj as int]).len());
                    assert(max_edit_distance == tolerance(lower_of(kview[kj as int])));
                    assert(token_matches(spec_tokens(input_string@)[wi as int], kview[kj as int]));
                    assert(spec_is_related(input_string@, kview));
                }
            } else {
                proof {
                    assert(edit_distance == lev(
                        lower_of(toks[wi as int]),
                        lower_of(kview[kj as int]),
                    ));
                    assert(max_edit_distance == tolerance(lower_of(kview[kj as int])));
                    assert(!token_matches(toks[wi as int], kview[kj as int]));
                }
            }
            kj = kj + 1;
        }
        wi = wi + 1;
    }
    result
}

} // verus!
