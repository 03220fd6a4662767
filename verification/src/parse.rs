//! Parsing one functional dependency from a text line of the form
//! `det1,det2 -> dep1,dep2`: the first `->` separates a comma-separated
//! determinant list from a comma-separated dependent list; each element is
//! trimmed of surrounding whitespace, empty elements are dropped, and each
//! side keeps the first occurrence of a repeated name.

use vstd::prelude::*;

use crate::fd::{insert_name, FD};
use crate::model::names_seq;

verus! {

/// A line that does not describe a functional dependency.
#[derive(Clone, Copy, Debug, PartialEq, Eq, Structural)]
pub enum ParseError {
    /// The line holds no `->` separator.
    MissingSeparator,
    /// The determinant list is empty, or all its elements are blank.
    EmptyDeterminant,
    /// The dependent list is empty, or all its elements are blank.
    EmptyDependent,
}

/// The characters `str::trim` removes.
pub open spec fn is_space(c: char) -> bool {
    c == ' ' || c == '\u{0009}' || c == '\u{000A}' || c == '\u{000B}' || c == '\u{000C}' || c
        == '\u{000D}' || c == '\u{0085}' || c == '\u{00A0}' || c == '\u{1680}' || c == '\u{2000}'
        || c == '\u{2001}' || c == '\u{2002}' || c == '\u{2003}' || c == '\u{2004}' || c
        == '\u{2005}' || c == '\u{2006}' || c == '\u{2007}' || c == '\u{2008}' || c == '\u{2009}'
        || c == '\u{200A}' || c == '\u{2028}' || c == '\u{2029}' || c == '\u{202F}' || c
        == '\u{205F}' || c == '\u{3000}'
}

/// Whether `c` counts as whitespace to be trimmed away.
pub fn is_space_char(c: char) -> (r: bool)
    ensures
        r == is_space(c),
{
    c == ' ' || c == '\u{0009}' || c == '\u{000A}' || c == '\u{000B}' || c == '\u{000C}' || c
        == '\u{000D}' || c == '\u{0085}' || c == '\u{00A0}' || c == '\u{1680}' || c == '\u{2000}'
        || c == '\u{2001}' || c == '\u{2002}' || c == '\u{2003}' || c == '\u{2004}' || c
        == '\u{2005}' || c == '\u{2006}' || c == '\u{2007}' || c == '\u{2008}' || c == '\u{2009}'
        || c == '\u{200A}' || c == '\u{2028}' || c == '\u{2029}' || c == '\u{202F}' || c
        == '\u{205F}' || c == '\u{3000}'
}

/// The text with leading whitespace removed.
pub open spec fn trim_front(s: Seq<char>) -> Seq<char>
    decreases s.len(),
{
    if s.len() > 0 && is_space(s[0]) {
        trim_front(s.skip(1))
    } else {
        s
    }
}

/// The text with trailing whitespace removed.
pub open spec fn trim_back(s: Seq<char>) -> Seq<char>
    decreases s.len(),
{
    if s.len() > 0 && is_space(s[s.len() - 1]) {
        trim_back(s.drop_last())
    } else {
        s
    }
}

/// The text with surrounding whitespace removed.
pub open spec fn trimmed(s: Seq<char>) -> Seq<char> {
    trim_back(trim_front(s))
}

/// The index of the first comma, or a negative value if there is none.
pub open spec fn first_comma(s: Seq<char>) -> int
    decreases s.len(),
{
    if s.len() == 0 {
        -1
    } else if s[0] == ',' {
        0
    } else {
        let r = first_comma(s.skip(1));
        if r < 0 {
            -1
        } else {
            r + 1
        }
    }
}

/// The comma-separated pieces of the text, in order.
pub open spec fn split_commas(s: Seq<char>) -> Seq<Seq<char>>
    decreases s.len(),
{
    let k = first_comma(s);
    if k < 0 || k >= s.len() {
        seq![s]
    } else {
        seq![s.take(k)] + split_commas(s.skip(k + 1))
    }
}

/// `acc` extended with `a`, unless `a` is already present.
pub open spec fn add_name(acc: Seq<Seq<char>>, a: Seq<char>) -> Seq<Seq<char>> {
    if acc.contains(a) {
        acc
    } else {
        acc.push(a)
    }
}

/// Fold the trimmed, non-blank pieces into `acc`, keeping first occurrences.
pub open spec fn collect_names(segs: Seq<Seq<char>>, acc: Seq<Seq<char>>) -> Seq<Seq<char>>
    decreases segs.len(),
{
    if segs.len() == 0 {
        acc
    } else {
        let t = trimmed(segs[0]);
        collect_names(segs.drop_first(), if t.len() == 0 {
            acc
        } else {
            add_name(acc, t)
        })
    }
}

/// The attribute names of one side of a dependency line.
pub open spec fn side_names(s: Seq<char>) -> Seq<Seq<char>> {
    collect_names(split_commas(s), Seq::empty())
}

/// A `->` separator starts at index `i`.
pub open spec fn sep_at(s: Seq<char>, i: int) -> bool {
    0 <= i && i + 1 < s.len() && s[i] == '-' && s[i + 1] == '>'
}

/// The index of the first `->` separator, or a negative value if none.
pub open spec fn sep_index(s: Seq<char>) -> int
    decreases s.len(),
{
    if s.len() < 2 {
        -1
    } else if s[0] == '-' && s[1] == '>' {
        0
    } else {
        let r = sep_index(s.skip(1));
        if r < 0 {
            -1
        } else {
            r + 1
        }
    }
}

/// `sep_index` finds exactly the first separator.
pub proof fn lemma_sep_index(s: Seq<char>)
    ensures
        sep_index(s) < 0 ==> (forall|i: int| !sep_at(s, i)),
        sep_index(s) >= 0 ==> sep_at(s, sep_index(s)) && (forall|i: int|
            0 <= i < sep_index(s) ==> !sep_at(s, i)),
    decreases s.len(),
{
    if s.len() < 2 {
        assert forall|i: int| !sep_at(s, i) by {}
    } else if s[0] == '-' && s[1] == '>' {
    } else {
        let rest = s.skip(1);
        lemma_sep_index(rest);
        let r = sep_index(rest);
        assert forall|i: int| 0 <= i && i + 1 < rest.len() implies #[trigger] rest[i] == s[i + 1]
            && rest[i + 1] == s[i + 2] by {}
        if r < 0 {
            assert forall|i: int| !sep_at(s, i) by {
                if 1 <= i && i + 1 < s.len() {
                    assert(!sep_at(rest, i - 1));
                }
            }
        } else {
            assert(sep_at(rest, r));
            assert(sep_at(s, r + 1));
            assert forall|i: int| 0 <= i < r + 1 implies !sep_at(s, i) by {
                if 1 <= i {
                    assert(!sep_at(rest, i - 1));
                }
            }
        }
    }
}

/// `first_comma` finds exactly the first comma.
pub proof fn lemma_first_comma(s: Seq<char>)
    ensures
        first_comma(s) < 0 ==> (forall|i: int| 0 <= i < s.len() ==> s[i] != ','),
        first_comma(s) >= 0 ==> 0 <= first_comma(s) < s.len() && s[first_comma(s)] == ','
            && (forall|i: int| 0 <= i < first_comma(s) ==> s[i] != ','),
    decreases s.len(),
{
    if s.len() == 0 {
    } else if s[0] == ',' {
    } else {
        let rest = s.skip(1);
        lemma_first_comma(rest);
        let r = first_comma(rest);
        if r < 0 {
            assert forall|i: int| 0 <= i < s.len() implies s[i] != ',' by {
                if i >= 1 {
                    assert(rest[i - 1] == s[i]);
                }
            }
        } else {
            assert(rest[r] == s[r + 1]);
            assert forall|i: int| 0 <= i < r + 1 implies s[i] != ',' by {
                if i >= 1 {
                    assert(rest[i - 1] == s[i]);
                }
            }
        }
    }
}

/// When the first `k` characters are whitespace and the next one is not,
/// trimming the front drops exactly those `k`.
pub proof fn lemma_trim_front(s: Seq<char>, k: int)
    requires
        0 <= k <= s.len(),
        forall|i: int| 0 <= i < k ==> is_space(s[i]),
        k == s.len() || !is_space(s[k]),
    ensures
        trim_front(s) == s.skip(k),
    decreases k,
{
    if k == 0 {
        assert(s.skip(0) =~= s);
        if s.len() > 0 && is_space(s[0]) {
            assert(false);
        }
    } else {
        assert(is_space(s[0]));
        let rest = s.skip(1);
        assert forall|i: int| 0 <= i < k - 1 implies is_space(rest[i]) by {
            assert(rest[i] == s[i + 1]);
        }
        if k - 1 < rest.len() {
            assert(rest[k - 1] == s[k]);
        }
        lemma_trim_front(rest, k - 1);
        assert(rest.skip(k - 1) =~= s.skip(k));
    }
}

/// When everything from index `m` on is whitespace and the character before
/// `m` is not, trimming the back keeps exactly the first `m`.
pub proof fn lemma_trim_back(s: Seq<char>, m: int)
    requires
        0 <= m <= s.len(),
        forall|i: int| m <= i < s.len() ==> is_space(s[i]),
        m == 0 || !is_space(s[m - 1]),
    ensures
        trim_back(s) == s.take(m),
    decreases s.len(),
{
    if m == s.len() {
        assert(s.take(m) =~= s);
        if s.len() > 0 && is_space(s[s.len() - 1]) {
            assert(false);
        }
    } else {
        assert(is_space(s[s.len() - 1]));
        let rest = s.drop_last();
        assert forall|i: int| m <= i < rest.len() implies is_space(rest[i]) by {
            assert(rest[i] == s[i]);
        }
        lemma_trim_back(rest, m);
        assert(rest.take(m) =~= s.take(m));
    }
}

/// Parse the attribute names between indexes `from` and `to` of `s`:
/// comma-separated, trimmed, blanks dropped, duplicates kept once.
fn parse_side(s: &str, from: usize, to: usize) -> (r: Vec<String>)
    requires
        from <= to <= s@.len(),
    ensures
        names_seq(r@) == side_names(s@.subrange(from as int, to as int)),
        names_seq(r@).no_duplicates(),
{
    let ghost side = s@.subrange(from as int, to as int);
    let mut out: Vec<String> = Vec::new();
    let mut segstart: usize = from;
    let mut j: usize = from;
    proof {
        assert(names_seq(out@) =~= Seq::<Seq<char>>::empty());
        assert(s@.subrange(segstart as int, to as int) == side);
    }
    while j < to
        invariant
            from <= to <= s@.len(),
            from <= segstart,
            segstart <= j <= to,
            side == s@.subrange(from as int, to as int),
            forall|idx: int| segstart <= idx < j ==> s@[idx] != ',',
            names_seq(out@).no_duplicates(),
            collect_names(
                split_commas(s@.subrange(segstart as int, to as int)),
                names_seq(out@),
            ) == side_names(side),
        decreases to - j,
    {
        let c = s.get_char(j);
        if c == ',' {
            collect_segment(s, segstart, j, &mut out);
            proof {
                let rem = s@.subrange(segstart as int, to as int);
                let p = j as int - segstart as int;
                assert forall|q: int| 0 <= q < p implies rem[q] != ',' by {
                    assert(rem[q] == s@[segstart + q]);
                }
                assert(rem[p] == ',');
                lemma_first_comma(rem);
                assert(first_comma(rem) == p);
                let seg = rem.take(p);
                assert(seg =~= s@.subrange(segstart as int, j as int));
                assert(rem.skip(p + 1) =~= s@.subrange(j as int + 1, to as int));
                let rest = split_commas(rem.skip(p + 1));
                assert(split_commas(rem) == seq![seg] + rest);
                assert((seq![seg] + rest).drop_first() =~= rest);
                assert((seq![seg] + rest)[0] == seg);
            }
            segstart = j + 1;
        }
        j += 1;
    }
    let ghost accbefore = names_seq(out@);
    collect_segment(s, segstart, to, &mut out);
    proof {
        let rem = s@.subrange(segstart as int, to as int);
        assert forall|q: int| 0 <= q < rem.len() implies rem[q] != ',' by {
            assert(rem[q] == s@[segstart + q]);
        }
        lemma_first_comma(rem);
        assert(split_commas(rem) == seq![rem]);
        assert((seq![rem]).drop_first() =~= Seq::<Seq<char>>::empty());
        assert((seq![rem])[0] == rem);
        let t = trimmed(rem);
        let acc2 = if t.len() == 0 {
            accbefore
        } else {
            add_name(accbefore, t)
        };
        assert(names_seq(out@) == acc2);
        assert(collect_names(seq![rem], accbefore) == collect_names(
            (seq![rem]).drop_first(),
            acc2,
        ));
        assert(collect_names(Seq::<Seq<char>>::empty(), acc2) == acc2);
        assert(names_seq(out@) == side_names(side));
    }
    out
}

/// Trim the piece of `s` between `a0` and `b0` and add it to `out` unless it
/// is blank or already present.
fn collect_segment(s: &str, a0: usize, b0: usize, out: &mut Vec<String>)
    requires
        a0 <= b0 <= s@.len(),
        names_seq(old(out)@).no_duplicates(),
    ensures
        names_seq(final (out)@).no_duplicates(),
        ({
            let t = trimmed(s@.subrange(a0 as int, b0 as int));
            names_seq(final (out)@) == if t.len() == 0 {
                names_seq(old(out)@)
            } else {
                add_name(names_seq(old(out)@), t)
            }
        }),
{
    let ghost seg = s@.subrange(a0 as int, b0 as int);
    let mut a: usize = a0;
    while a < b0 && is_space_char(s.get_char(a))
        invariant
            a0 <= a <= b0 <= s@.len(),
            forall|idx: int| a0 <= idx < a ==> is_space(s@[idx]),
        decreases b0 - a,
    {
        a += 1;
    }
    let mut b: usize = b0;
    while b > a && is_space_char(s.get_char(b - 1))
        invariant
            a <= b <= b0,
            a0 <= a <= b0 <= s@.len(),
            forall|idx: int| b <= idx < b0 ==> is_space(s@[idx]),
        decreases b - a,
    {
        b -= 1;
    }
    proof {
        let k = a as int - a0 as int;
        assert forall|i: int| 0 <= i < k implies is_space(seg[i]) by {
            assert(seg[i] == s@[a0 + i]);
        }
        if k < seg.len() {
            assert(seg[k] == s@[a as int]);
        }
        lemma_trim_front(seg, k);
        let fr = seg.skip(k);
        let m = b as int - a as int;
        assert forall|i: int| m <= i < fr.len() implies is_space(fr[i]) by {
            assert(fr[i] == s@[a as int + i]);
        }
        if m > 0 {
            assert(fr[m - 1] == s@[b as int - 1]);
        }
        lemma_trim_back(fr, m);
        assert(trimmed(seg) == fr.take(m));
        assert(fr.take(m) =~= s@.subrange(a as int, b as int));
    }
    if a < b {
        let piece = s.substring_char(a, b).to_owned();
        proof {
            assert(piece@ == trimmed(seg));
            assert(trimmed(seg).len() > 0);
        }
        insert_name(out, piece);
    } else {
        proof {
            assert(trimmed(seg).len() == 0);
        }
    }
}

impl FD {
    /// Parse one dependency line: the text before the first `->` gives the
    /// determinant names, the text after it the dependent names.  The line
    /// is rejected when no separator exists or either side ends up empty.
    pub fn from(string: String) -> (r: Result<FD, ParseError>)
        ensures
            sep_index(string@) < 0 ==> r == Err::<FD, ParseError>(ParseError::MissingSeparator),
            sep_index(string@) >= 0 ==> ({
                let left = side_names(string@.take(sep_index(string@)));
                let right = side_names(string@.skip(sep_index(string@) + 2));
                if left.len() == 0 {
                    r == Err::<FD, ParseError>(ParseError::EmptyDeterminant)
                } else if right.len() == 0 {
                    r == Err::<FD, ParseError>(ParseError::EmptyDependent)
                } else {
                    r matches Ok(fd) && fd@.det == left && fd@.dep == right && fd@.wf()
                        && fd@.valid()
                }
            }),
    {
        let s = string.as_str();
        let n = s.unicode_len();
        let mut i: usize = 0;
        let mut found = false;
        while !found && n > 0 && i < n - 1
            invariant
                n == s@.len(),
                i <= n,
                !found ==> (forall|j: int| 0 <= j < i ==> !sep_at(s@, j)),
                found ==> sep_at(s@, i as int) && (forall|j: int| 0 <= j < i ==> !sep_at(s@, j)),
            decreases n - i, (if found {
                0int
            } else {
                1int
            }),
        {
            if s.get_char(i) == '-' && s.get_char(i + 1) == '>' {
                found = true;
            } else {
                proof {
                    assert(!sep_at(s@, i as int));
                }
                i += 1;
            }
        }
        proof {
            lemma_sep_index(string@);
        }
        if !found {
            proof {
                assert forall|j: int| !sep_at(s@, j) by {
                    if 0 <= j && j + 1 < s@.len() {
                        assert(j < i);
                    }
                }
                assert(sep_index(string@) < 0);
            }
            return Err(ParseError::MissingSeparator);
        }
        proof {
            if sep_index(string@) < 0 {
                assert(!sep_at(s@, i as int));
            }
            if sep_index(string@) < i as int {
                assert(!sep_at(s@, sep_index(string@)));
            }
            if sep_index(string@) > i as int {
                assert(!sep_at(s@, i as int));
            }
            assert(sep_index(string@) == i as int);
        }
        let det = parse_side(s, 0, i);
        let dep = parse_side(s, i + 2, n);
        proof {
            assert(s@.subrange(0, i as int) =~= string@.take(i as int));
            assert(s@.subrange(i as int + 2, n as int) =~= string@.skip(i as int + 2));
        }
        if det.is_empty() {
            return Err(ParseError::EmptyDeterminant);
        }
        if dep.is_empty() {
            return Err(ParseError::EmptyDependent);
        }
        Ok(FD { det, dep })
    }
}

} // verus!
