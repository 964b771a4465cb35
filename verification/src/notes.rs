//! The annotation model: a review annotation is a text blob whose lines form
//! a set. The persisted form is always the sorted, deduplicated join of that
//! set, so attaching a line that is already present changes nothing.

use vstd::prelude::*;

verus! {

/// A single annotation line holds no newline.
pub open spec fn is_line(l: Seq<char>) -> bool {
    forall|i: int| 0 <= i < l.len() ==> l[i] != '\n'
}

/// Index of the first newline in `s`, or `s.len()` if there is none.
pub open spec fn first_newline(s: Seq<char>) -> int
    decreases s.len(),
{
    if s.len() == 0 {
        0
    } else if s[0] == '\n' {
        0
    } else {
        1 + first_newline(s.skip(1))
    }
}

pub proof fn lemma_first_newline_bounds(s: Seq<char>)
    ensures
        0 <= first_newline(s) <= s.len(),
        forall|j: int| 0 <= j < first_newline(s) ==> s[j] != '\n',
        first_newline(s) < s.len() ==> s[first_newline(s)] == '\n',
    decreases s.len(),
{
    if s.len() != 0 && s[0] != '\n' {
        lemma_first_newline_bounds(s.skip(1));
        assert forall|j: int| 0 <= j < first_newline(s) implies s[j] != '\n' by {
            if j > 0 {
                assert(s.skip(1)[j - 1] != '\n');
            }
        }
    }
}

#[via_fn]
proof fn split_lines_decreases(s: Seq<char>) {
    lemma_first_newline_bounds(s);
}

/// The lines of a text blob: pieces between newlines, with the piece after a
/// trailing newline dropped, as `str::lines` reads them.
pub open spec fn split_lines(s: Seq<char>) -> Seq<Seq<char>>
    decreases s.len(),
        via split_lines_decreases
{
    if s.len() == 0 {
        seq![]
    } else {
        let i = first_newline(s);
        if i == s.len() {
            seq![s]
        } else {
            seq![s.take(i)] + split_lines(s.skip(i + 1))
        }
    }
}

/// The lines joined back into a blob, with a single newline between them.
pub open spec fn join_lines(ls: Seq<Seq<char>>) -> Seq<char>
    decreases ls.len(),
{
    if ls.len() == 0 {
        seq![]
    } else if ls.len() == 1 {
        ls[0]
    } else {
        ls[0] + seq!['\n'] + join_lines(ls.skip(1))
    }
}

/// Strict lexicographic order on lines, by character code.
pub open spec fn line_lt(a: Seq<char>, b: Seq<char>) -> bool
    decreases a.len(),
{
    if b.len() == 0 {
        false
    } else if a.len() == 0 {
        true
    } else if a[0] != b[0] {
        a[0] < b[0]
    } else {
        line_lt(a.skip(1), b.skip(1))
    }
}

/// Lines in strictly increasing order; strictness also means no duplicates.
pub open spec fn sorted_lines(ls: Seq<Seq<char>>) -> bool {
    forall|i: int, j: int| 0 <= i < j < ls.len() ==> line_lt(ls[i], ls[j])
}

/// `l` inserted into the sorted line list `ls`; a no-op if already present.
pub open spec fn insert_sorted(ls: Seq<Seq<char>>, l: Seq<char>) -> Seq<Seq<char>>
    decreases ls.len(),
{
    if ls.len() == 0 {
        seq![l]
    } else if l == ls[0] {
        ls
    } else if line_lt(l, ls[0]) {
        seq![l] + ls
    } else {
        seq![ls[0]] + insert_sorted(ls.skip(1), l)
    }
}

/// The lines sorted and deduplicated, by repeated insertion.
pub open spec fn normalize_lines(ls: Seq<Seq<char>>) -> Seq<Seq<char>>
    decreases ls.len(),
{
    if ls.len() == 0 {
        seq![]
    } else {
        insert_sorted(normalize_lines(ls.drop_last()), ls.last())
    }
}

/// The stored annotation after attaching `l` to a prior blob `old`: the
/// sorted, deduplicated join of the old lines together with `l`.
pub open spec fn spec_append_note(old: Option<Seq<char>>, l: Seq<char>) -> Seq<char> {
    let old_lines = match old {
        Some(s) => split_lines(s),
        None => seq![],
    };
    join_lines(insert_sorted(normalize_lines(old_lines), l))
}

/// Whether the blob `s` carries the line `l`.
pub open spec fn note_has_line(s: Seq<char>, l: Seq<char>) -> bool {
    split_lines(s).contains(l)
}

pub proof fn lemma_line_lt_irrefl(a: Seq<char>)
    ensures
        !line_lt(a, a),
    decreases a.len(),
{
    if a.len() != 0 {
        lemma_line_lt_irrefl(a.skip(1));
    }
}

pub proof fn lemma_line_lt_asym(a: Seq<char>, b: Seq<char>)
    requires
        line_lt(a, b),
    ensures
        !line_lt(b, a),
    decreases a.len(),
{
    if a.len() != 0 && b.len() != 0 && a[0] == b[0] {
        lemma_line_lt_asym(a.skip(1), b.skip(1));
    }
}

pub proof fn lemma_line_lt_total(a: Seq<char>, b: Seq<char>)
    ensures
        a == b || line_lt(a, b) || line_lt(b, a),
    decreases a.len(),
{
    if a.len() == 0 && b.len() == 0 {
        assert(a =~= b);
    } else if a.len() != 0 && b.len() != 0 {
        if a[0] == b[0] {
            lemma_line_lt_total(a.skip(1), b.skip(1));
            if a.skip(1) == b.skip(1) {
                assert(a.skip(1).len() == a.len() - 1 && b.skip(1).len() == b.len() - 1);
                assert(a.len() == b.len());
                assert forall|i: int| 0 <= i < a.len() implies a[i] == b[i] by {
                    if i >= 1 {
                        assert(a.skip(1)[i - 1] == b.skip(1)[i - 1]);
                    }
                }
                assert(a =~= b);
            }
        }
    }
}

/// Inserting keeps exactly the old lines plus the new one.
pub proof fn lemma_insert_sorted_elems(ls: Seq<Seq<char>>, l: Seq<char>)
    ensures
        forall|x: Seq<char>|
            #[trigger] insert_sorted(ls, l).contains(x) <==> ls.contains(x) || x == l,
        insert_sorted(ls, l).len() >= 1,
    decreases ls.len(),
{
    if ls.len() == 0 {
        assert forall|x: Seq<char>| #[trigger]
            insert_sorted(ls, l).contains(x) implies ls.contains(x) || x == l by {
            assert(insert_sorted(ls, l) =~= seq![l]);
        }
        assert(insert_sorted(ls, l).contains(l)) by {
            assert(insert_sorted(ls, l)[0] == l);
        }
    } else if l == ls[0] {
        // insert_sorted(ls, l) == ls, and ls contains l at index 0
    } else if line_lt(l, ls[0]) {
        let r = seq![l] + ls;
        assert forall|x: Seq<char>| ls.contains(x) || x == l implies #[trigger] r.contains(x) by {
            if x == l {
                assert(r[0] == l);
            } else {
                let i = choose|i: int| 0 <= i < ls.len() && ls[i] == x;
                assert(r[i + 1] == x);
            }
        }
        assert forall|x: Seq<char>| #[trigger] r.contains(x) implies ls.contains(x) || x == l by {
            let i = choose|i: int| 0 <= i < r.len() && r[i] == x;
            if i > 0 {
                assert(ls[i - 1] == x);
            }
        }
    } else {
        lemma_insert_sorted_elems(ls.skip(1), l);
        let r = seq![ls[0]] + insert_sorted(ls.skip(1), l);
        assert forall|x: Seq<char>| ls.contains(x) || x == l implies #[trigger] r.contains(x) by {
            if x != l {
                let i = choose|i: int| 0 <= i < ls.len() && ls[i] == x;
                if i == 0 {
                    assert(r[0] == x);
                } else {
                    assert(ls.skip(1)[i - 1] == x);
                    assert(ls.skip(1).contains(x));
                    assert(insert_sorted(ls.skip(1), l).contains(x));
                    let j = choose|j: int|
                        0 <= j < insert_sorted(ls.skip(1), l).len() && insert_sorted(
                            ls.skip(1),
                            l,
                        )[j] == x;
                    assert(r[j + 1] == x);
                }
            } else {
                assert(insert_sorted(ls.skip(1), l).contains(l));
                let j = choose|j: int|
                    0 <= j < insert_sorted(ls.skip(1), l).len() && insert_sorted(ls.skip(1), l)[j]
                        == l;
                assert(r[j + 1] == l);
            }
        }
        assert forall|x: Seq<char>| #[trigger] r.contains(x) implies ls.contains(x) || x == l by {
            let i = choose|i: int| 0 <= i < r.len() && r[i] == x;
            if i == 0 {
                assert(ls[0] == x);
            } else {
                assert(insert_sorted(ls.skip(1), l)[i - 1] == x);
                assert(insert_sorted(ls.skip(1), l).contains(x));
                if ls.skip(1).contains(x) {
                    let j = choose|j: int| 0 <= j < ls.skip(1).len() && ls.skip(1)[j] == x;
                    assert(ls[j + 1] == x);
                }
            }
        }
    }
}

/// Inserting into a sorted line list keeps it sorted.
pub proof fn lemma_insert_sorted_sorted(ls: Seq<Seq<char>>, l: Seq<char>)
    requires
        sorted_lines(ls),
    ensures
        sorted_lines(insert_sorted(ls, l)),
    decreases ls.len(),
{
    if ls.len() == 0 {
    } else if l == ls[0] {
    } else if line_lt(l, ls[0]) {
        let r = seq![l] + ls;
        assert forall|i: int, j: int| 0 <= i < j < r.len() implies line_lt(r[i], r[j]) by {
            if i == 0 {
                if j == 1 {
                    assert(r[j] == ls[0]);
                } else {
                    lemma_line_lt_trans(l, ls[0], ls[j - 1]);
                }
            } else {
                assert(r[i] == ls[i - 1] && r[j] == ls[j - 1]);
            }
        }
    } else {
        assert(sorted_lines(ls.skip(1))) by {
            assert(forall|i: int, j: int|
                0 <= i < j < ls.skip(1).len() ==> ls.skip(1)[i] == ls[i + 1] && ls.skip(1)[j]
                    == ls[j + 1]);
        }
        lemma_insert_sorted_sorted(ls.skip(1), l);
        lemma_insert_sorted_elems(ls.skip(1), l);
        let t = insert_sorted(ls.skip(1), l);
        let r = seq![ls[0]] + t;
        // ls[0] is below every element of t: below l by totality, below the
        // rest because ls is sorted.
        assert forall|j: int| 0 <= j < t.len() implies line_lt(ls[0], t[j]) by {
            assert(t.contains(t[j]));
            if t[j] == l {
                lemma_line_lt_total(l, ls[0]);
                if l == ls[0] {
                    lemma_line_lt_irrefl(l);
                }
            } else {
                assert(ls.skip(1).contains(t[j]));
                let k = choose|k: int| 0 <= k < ls.skip(1).len() && ls.skip(1)[k] == t[j];
                assert(ls[k + 1] == t[j]);
            }
        }
        assert forall|i: int, j: int| 0 <= i < j < r.len() implies line_lt(r[i], r[j]) by {
            if i > 0 {
                assert(r[i] == t[i - 1] && r[j] == t[j - 1]);
            } else {
                assert(r[j] == t[j - 1]);
            }
        }
    }
}

/// Inserting a line that is already present changes nothing.
pub proof fn lemma_insert_sorted_id(ls: Seq<Seq<char>>, l: Seq<char>)
    requires
        sorted_lines(ls),
        ls.contains(l),
    ensures
        insert_sorted(ls, l) == ls,
    decreases ls.len(),
{
    let i = choose|i: int| 0 <= i < ls.len() && ls[i] == l;
    if i == 0 {
    } else {
        // ls[0] < l, so neither of the first two branches applies.
        assert(line_lt(ls[0], l));
        lemma_line_lt_irrefl(l);
        lemma_line_lt_asym(ls[0], l);
        assert(sorted_lines(ls.skip(1))) by {
            assert(forall|p: int, q: int|
                0 <= p < q < ls.skip(1).len() ==> ls.skip(1)[p] == ls[p + 1] && ls.skip(1)[q]
                    == ls[q + 1]);
        }
        assert(ls.skip(1)[i - 1] == l);
        assert(ls.skip(1).contains(l));
        lemma_insert_sorted_id(ls.skip(1), l);
        assert(seq![ls[0]] + ls.skip(1) =~= ls);
    }
}

/// Inserting a line above every element appends it at the end.
pub proof fn lemma_insert_sorted_append(ls: Seq<Seq<char>>, l: Seq<char>)
    requires
        forall|i: int| 0 <= i < ls.len() ==> line_lt(ls[i], l),
    ensures
        insert_sorted(ls, l) == ls.push(l),
    decreases ls.len(),
{
    if ls.len() == 0 {
        assert(insert_sorted(ls, l) =~= ls.push(l));
    } else {
        lemma_line_lt_irrefl(l);
        lemma_line_lt_asym(ls[0], l);
        assert(forall|i: int|
            0 <= i < ls.skip(1).len() ==> ls.skip(1)[i] == ls[i + 1]);
        lemma_insert_sorted_append(ls.skip(1), l);
        assert(seq![ls[0]] + ls.skip(1).push(l) =~= ls.push(l));
    }
}

/// Normalizing sorts and deduplicates while keeping exactly the same lines.
pub proof fn lemma_normalize_lines(ls: Seq<Seq<char>>)
    ensures
        sorted_lines(normalize_lines(ls)),
        forall|x: Seq<char>| #[trigger] normalize_lines(ls).contains(x) <==> ls.contains(x),
    decreases ls.len(),
{
    if ls.len() == 0 {
    } else {
        lemma_normalize_lines(ls.drop_last());
        lemma_insert_sorted_sorted(normalize_lines(ls.drop_last()), ls.last());
        lemma_insert_sorted_elems(normalize_lines(ls.drop_last()), ls.last());
        assert forall|x: Seq<char>| ls.contains(x) implies #[trigger]
            normalize_lines(ls).contains(x) by {
            let i = choose|i: int| 0 <= i < ls.len() && ls[i] == x;
            if i < ls.len() - 1 {
                assert(ls.drop_last()[i] == x);
                assert(ls.drop_last().contains(x));
            }
        }
        assert forall|x: Seq<char>| #[trigger]
            normalize_lines(ls).contains(x) implies ls.contains(x) by {
            if ls.drop_last().contains(x) {
                let i = choose|i: int| 0 <= i < ls.drop_last().len() && ls.drop_last()[i] == x;
                assert(ls[i] == x);
            } else {
                assert(ls[ls.len() - 1] == x);
            }
        }
    }
}

/// Normalizing an already sorted line list changes nothing.
pub proof fn lemma_normalize_of_sorted(ls: Seq<Seq<char>>)
    requires
        sorted_lines(ls),
    ensures
        normalize_lines(ls) == ls,
    decreases ls.len(),
{
    if ls.len() != 0 {
        assert(sorted_lines(ls.drop_last())) by {
            assert(forall|p: int, q: int|
                0 <= p < q < ls.drop_last().len() ==> ls.drop_last()[p] == ls[p]
                    && ls.drop_last()[q] == ls[q]);
        }
        lemma_normalize_of_sorted(ls.drop_last());
        assert(forall|i: int|
            0 <= i < ls.drop_last().len() ==> line_lt(#[trigger] ls.drop_last()[i], ls.last()));
        lemma_insert_sorted_append(ls.drop_last(), ls.last());
        assert(ls.drop_last().push(ls.last()) =~= ls);
    }
}

pub proof fn lemma_line_lt_trans(a: Seq<char>, b: Seq<char>, c: Seq<char>)
    requires
        line_lt(a, b),
        line_lt(b, c),
    ensures
        line_lt(a, c),
    decreases a.len() + b.len() + c.len(),
{
    if a.len() != 0 && b.len() != 0 && c.len() != 0 && a[0] == b[0] && b[0] == c[0] {
        lemma_line_lt_trans(a.skip(1), b.skip(1), c.skip(1));
    }
}

/// Every piece that splitting yields is itself free of newlines.
pub proof fn lemma_split_lines_is_line(s: Seq<char>)
    ensures
        forall|i: int| 0 <= i < split_lines(s).len() ==> is_line(#[trigger] split_lines(s)[i]),
    decreases s.len(),
{
    lemma_first_newline_bounds(s);
    if s.len() != 0 {
        let i = first_newline(s);
        if i == s.len() {
            assert(is_line(s));
        } else {
            lemma_split_lines_is_line(s.skip(i + 1));
            assert(is_line(s.take(i)));
            assert(forall|k: int|
                1 <= k < split_lines(s).len() ==> split_lines(s)[k] == split_lines(s.skip(i + 1))[k
                    - 1]);
        }
    }
}

/// A newline placed after a newline-free prefix is the first newline.
proof fn lemma_first_newline_concat(a: Seq<char>, b: Seq<char>)
    requires
        is_line(a),
    ensures
        first_newline(a + seq!['\n'] + b) == a.len(),
    decreases a.len(),
{
    let s = a + seq!['\n'] + b;
    if a.len() == 0 {
        assert(s[0] == '\n');
    } else {
        assert(s[0] == a[0]);
        assert(is_line(a.skip(1)));
        lemma_first_newline_concat(a.skip(1), b);
        assert(s.skip(1) =~= a.skip(1) + seq!['\n'] + b);
    }
}

/// Splitting a join gives back the very line list, provided the lines hold no
/// newline and the last one is not empty.
pub proof fn lemma_split_join(ls: Seq<Seq<char>>)
    requires
        forall|i: int| 0 <= i < ls.len() ==> is_line(#[trigger] ls[i]),
        ls.len() > 0 ==> ls.last().len() != 0,
    ensures
        split_lines(join_lines(ls)) == ls,
    decreases ls.len(),
{
    let j = join_lines(ls);
    if ls.len() == 0 {
        assert(split_lines(j) =~= ls);
    } else if ls.len() == 1 {
        lemma_first_newline_bounds(j);
        assert(j == ls[0]);
        assert(first_newline(j) == j.len());
        assert(split_lines(j) =~= seq![j]);
        assert(split_lines(j) =~= ls);
    } else {
        let rest = ls.skip(1);
        assert(j == ls[0] + seq!['\n'] + join_lines(rest));
        lemma_first_newline_concat(ls[0], join_lines(rest));
        let i = first_newline(j);
        assert(i == ls[0].len());
        assert(i < j.len()) by {
            assert(j.len() == ls[0].len() + 1 + join_lines(rest).len());
        }
        assert(j.take(i) =~= ls[0]);
        assert(j.skip(i + 1) =~= join_lines(rest));
        assert(forall|k: int| 0 <= k < rest.len() ==> rest[k] == ls[k + 1]);
        assert(rest.last() == ls.last());
        lemma_split_join(rest);
        assert(split_lines(j) =~= seq![ls[0]] + rest);
        assert(seq![ls[0]] + rest =~= ls);
    }
}

/// The canonical line list that `spec_append_note` serializes.
pub open spec fn appended_lines(old: Option<Seq<char>>, l: Seq<char>) -> Seq<Seq<char>> {
    let old_lines = match old {
        Some(s) => split_lines(s),
        None => seq![],
    };
    insert_sorted(normalize_lines(old_lines), l)
}

/// What the appended line list holds: it is sorted, and its lines are exactly
/// the old ones together with the new one.
pub proof fn lemma_appended_lines(old: Option<Seq<char>>, l: Seq<char>)
    requires
        is_line(l),
    ensures
        sorted_lines(appended_lines(old, l)),
        appended_lines(old, l).len() >= 1,
        forall|x: Seq<char>|
            #[trigger] appended_lines(old, l).contains(x) <==> (old is Some && note_has_line(
                old->0,
                x,
            )) || x == l,
        forall|i: int|
            0 <= i < appended_lines(old, l).len() ==> is_line(#[trigger] appended_lines(old, l)[i]),
{
    let old_lines = match old {
        Some(s) => split_lines(s),
        None => seq![],
    };
    let norm = normalize_lines(old_lines);
    let m = appended_lines(old, l);
    lemma_normalize_lines(old_lines);
    lemma_insert_sorted_sorted(norm, l);
    lemma_insert_sorted_elems(norm, l);
    if old is Some {
        lemma_split_lines_is_line(old->0);
    }
    assert forall|i: int| 0 <= i < m.len() implies is_line(#[trigger] m[i]) by {
        assert(m.contains(m[i]));
        if m[i] != l {
            assert(old_lines.contains(m[i]));
        }
    }
}

/// Appending the same line twice yields the same stored annotation as
/// appending it once.
pub proof fn lemma_append_note_idempotent(old: Option<Seq<char>>, l: Seq<char>)
    requires
        is_line(l),
    ensures
        spec_append_note(Some(spec_append_note(old, l)), l) == spec_append_note(old, l),
{
    let m = appended_lines(old, l);
    let r = join_lines(m);
    lemma_appended_lines(old, l);
    assert(m.contains(l));
    if m.len() == 1 && m[0].len() == 0 {
        // The one corner where the serialization is not split back into the
        // same list: the annotation is the single empty line, which joins to
        // the empty blob. The empty blob has no lines, and re-inserting the
        // (necessarily empty) new line rebuilds the same single-line list.
        assert(l == m[0]) by {
            let i = choose|i: int| 0 <= i < m.len() && m[i] == l;
        }
        assert(r =~= Seq::<char>::empty());
        assert(split_lines(r) =~= Seq::<Seq<char>>::empty());
        assert(appended_lines(Some(r), l) =~= seq![l]);
        assert(seq![l] =~= m);
    } else {
        assert(m.len() > 0 ==> m.last().len() != 0) by {
            if m.len() >= 2 && m.last().len() == 0 {
                assert(line_lt(m[0], m[m.len() - 1]));
            }
        }
        lemma_split_join(m);
        lemma_normalize_of_sorted(m);
        lemma_insert_sorted_id(m, l);
        assert(appended_lines(Some(r), l) == m);
    }
}

/// The stored annotation after an append carries exactly the old lines plus
/// the new one, in strictly sorted order.
pub proof fn lemma_append_note_lines(old: Option<Seq<char>>, l: Seq<char>)
    requires
        is_line(l),
        l.len() != 0,
    ensures
        sorted_lines(split_lines(spec_append_note(old, l))),
        forall|x: Seq<char>|
            #[trigger] note_has_line(spec_append_note(old, l), x) <==> (old is Some
                && note_has_line(old->0, x)) || x == l,
{
    let m = appended_lines(old, l);
    lemma_appended_lines(old, l);
    assert(m.contains(l));
    assert(m.len() > 0 ==> m.last().len() != 0) by {
        if m.len() >= 2 && m.last().len() == 0 {
            assert(line_lt(m[0], m[m.len() - 1]));
        }
        if m.len() == 1 {
            assert(m[0] == l) by {
                let i = choose|i: int| 0 <= i < m.len() && m[i] == l;
            }
        }
    }
    lemma_split_join(m);
}

/// The views of a list of owned lines.
pub open spec fn line_views(ls: Seq<String>) -> Seq<Seq<char>> {
    ls.map_values(|s: String| s@)
}

/// Character-for-character equality of two string slices.
pub fn str_eq(a: &str, b: &str) -> (r: bool)
    ensures
        r == (a@ == b@),
{
    let n = a.unicode_len();
    if n != b.unicode_len() {
        return false;
    }
    let mut i: usize = 0;
    while i < n
        invariant
            0 <= i <= n,
            n == a@.len(),
            n == b@.len(),
            forall|j: int| 0 <= j < i ==> a@[j] == b@[j],
        decreases n - i,
    {
        if a.get_char(i) != b.get_char(i) {
            return false;
        }
        i += 1;
    }
    proof {
        assert(a@ =~= b@);
    }
    true
}

/// Whether `a` comes strictly before `b` in line order.
pub fn line_before(a: &str, b: &str) -> (r: bool)
    ensures
        r == line_lt(a@, b@),
{
    let an = a.unicode_len();
    let bn = b.unicode_len();
    let mut i: usize = 0;
    proof {
        assert(a@.skip(0) =~= a@);
        assert(b@.skip(0) =~= b@);
    }
    loop
        invariant
            0 <= i <= an,
            i <= bn,
            an == a@.len(),
            bn == b@.len(),
            line_lt(a@, b@) == line_lt(a@.skip(i as int), b@.skip(i as int)),
        decreases an - i,
    {
        if i == bn {
            assert(b@.skip(i as int).len() == 0);
            return false;
        }
        if i == an {
            assert(a@.skip(i as int).len() == 0 && b@.skip(i as int).len() != 0);
            return true;
        }
        let ca = a.get_char(i);
        let cb = b.get_char(i);
        proof {
            assert(a@.skip(i as int)[0] == a@[i as int]);
            assert(b@.skip(i as int)[0] == b@[i as int]);
        }
        if ca != cb {
            return ca < cb;
        }
        proof {
            assert(a@.skip(i as int).skip(1) =~= a@.skip(i + 1));
            assert(b@.skip(i as int).skip(1) =~= b@.skip(i + 1));
        }
        i += 1;
    }
}

/// The lines of a text blob, as owned strings.
pub fn split_note(s: &str) -> (r: Vec<String>)
    ensures
        line_views(r@) == split_lines(s@),
    decreases s@.len(),
{
    let n = s.unicode_len();
    if n == 0 {
        let r: Vec<String> = Vec::new();
        assert(line_views(r@) =~= split_lines(s@));
        return r;
    }
    let mut i: usize = 0;
    while i < n && s.get_char(i) != '\n'
        invariant
            0 <= i <= n,
            n == s@.len(),
            forall|j: int| 0 <= j < i ==> s@[j] != '\n',
        decreases n - i,
    {
        i += 1;
    }
    proof {
        lemma_first_newline_bounds(s@);
        let f = first_newline(s@);
        if f < i {
            assert(s@[f] != '\n');
            assert(false);
        }
        if f > i {
            assert(i < n);
            assert(s@[i as int] == '\n');
            assert(false);
        }
    }
    let piece: String = s.substring_char(0, i).to_owned();
    if i == n {
        let mut r: Vec<String> = Vec::new();
        r.push(piece);
        assert(line_views(r@) =~~= split_lines(s@));
        r
    } else {
        let rest = s.substring_char(i + 1, n);
        proof {
            assert(rest@ =~= s@.skip(i + 1));
        }
        let mut r = split_note(rest);
        r.insert(0, piece);
        assert(line_views(r@) =~~= split_lines(s@));
        r
    }
}

proof fn lemma_join_push(ls: Seq<Seq<char>>, x: Seq<char>)
    ensures
        join_lines(ls.push(x)) == if ls.len() == 0 {
            x
        } else {
            join_lines(ls) + seq!['\n'] + x
        },
    decreases ls.len(),
{
    if ls.len() == 0 {
        assert(ls.push(x)[0] == x);
        assert(join_lines(ls.push(x)) == x);
    } else if ls.len() == 1 {
        assert(ls.push(x)[0] == ls[0]);
        assert(ls.push(x).skip(1) =~= seq![x]);
        assert(join_lines(ls.push(x)) == ls[0] + seq!['\n'] + join_lines(seq![x]));
        assert(join_lines(seq![x]) == x);
        assert(join_lines(ls) == ls[0]);
    } else {
        assert(ls.push(x)[0] == ls[0]);
        assert(ls.push(x).skip(1) =~= ls.skip(1).push(x));
        lemma_join_push(ls.skip(1), x);
        assert(join_lines(ls.push(x)) == ls[0] + seq!['\n'] + (join_lines(ls.skip(1)) + seq!['\n']
            + x));
        assert(ls[0] + seq!['\n'] + (join_lines(ls.skip(1)) + seq!['\n'] + x) =~= (ls[0]
            + seq!['\n'] + join_lines(ls.skip(1))) + seq!['\n'] + x);
    }
}

/// The lines joined into one blob with single newlines between them.
pub fn join_note(ls: &Vec<String>) -> (r: String)
    ensures
        r@ == join_lines(line_views(ls@)),
{
    let mut r = String::new();
    let mut k: usize = 0;
    while k < ls.len()
        invariant
            0 <= k <= ls@.len(),
            r@ == join_lines(line_views(ls@).take(k as int)),
        decreases ls@.len() - k,
    {
        if k > 0 {
            proof {
                reveal_strlit("\n");
            }
            r.append("\n");
        }
        r.append((&ls[k]).as_str());
        proof {
            reveal_strlit("\n");
            assert("\n"@ =~= seq!['\n']);
            lemma_join_push(line_views(ls@).take(k as int), ls@[k as int]@);
            assert(line_views(ls@).take(k + 1) =~= line_views(ls@).take(k as int).push(
                ls@[k as int]@,
            ));
        }
        k += 1;
    }
    proof {
        assert(line_views(ls@).take(ls@.len() as int) =~= line_views(ls@));
    }
    r
}

/// Where an insertion lands: scanning past the lines below `l` either finds
/// `l` itself or the place where it belongs.
proof fn lemma_insert_sorted_at(ls: Seq<Seq<char>>, l: Seq<char>, i: int)
    requires
        0 <= i <= ls.len(),
        forall|j: int| 0 <= j < i ==> line_lt(#[trigger] ls[j], l),
        i < ls.len() ==> !line_lt(ls[i], l),
    ensures
        insert_sorted(ls, l) == if i < ls.len() && ls[i] == l {
            ls
        } else {
            ls.take(i) + seq![l] + ls.skip(i)
        },
    decreases ls.len(),
{
    if ls.len() == 0 {
        assert(insert_sorted(ls, l) =~= ls.take(0) + seq![l] + ls.skip(0));
    } else if i == 0 {
        if ls[0] == l {
        } else {
            lemma_line_lt_total(l, ls[0]);
            assert(seq![l] + ls =~= ls.take(0) + seq![l] + ls.skip(0));
        }
    } else {
        lemma_line_lt_irrefl(l);
        lemma_line_lt_asym(ls[0], l);
        assert(forall|j: int| 0 <= j < i - 1 ==> line_lt(#[trigger] ls.skip(1)[j], l));
        assert(i - 1 < ls.skip(1).len() ==> !line_lt(ls.skip(1)[i - 1], l));
        lemma_insert_sorted_at(ls.skip(1), l, i - 1);
        if i < ls.len() && ls[i] == l {
            assert(ls.skip(1)[i - 1] == l);
            assert(seq![ls[0]] + ls.skip(1) =~= ls);
        } else {
            assert(seq![ls[0]] + (ls.skip(1).take(i - 1) + seq![l] + ls.skip(1).skip(i - 1)) =~= ls.take(
                i,
            ) + seq![l] + ls.skip(i));
        }
    }
}

/// `l` inserted into the line list in order, with no effect if present.
fn insert_note_line(ls: Vec<String>, l: &str) -> (r: Vec<String>)
    ensures
        line_views(r@) == insert_sorted(line_views(ls@), l@),
{
    let mut ls = ls;
    let n = ls.len();
    let mut i: usize = 0;
    loop
        invariant_except_break
            0 <= i <= n,
        invariant
            n == ls@.len(),
            line_views(ls@) == line_views(ls@),
            forall|j: int| 0 <= j < i ==> line_lt(#[trigger] ls@[j]@, l@),
        ensures
            0 <= i <= n,
            i < n ==> !line_lt(ls@[i as int]@, l@),
        decreases n - i,
    {
        if i == n {
            break;
        }
        if !line_before((&ls[i]).as_str(), l) {
            break;
        }
        i += 1;
    }
    if i < n && str_eq((&ls[i]).as_str(), l) {
        proof {
            lemma_insert_sorted_at(line_views(ls@), l@, i as int);
        }
        return ls;
    }
    let ghost pre = ls@;
    proof {
        lemma_insert_sorted_at(line_views(pre), l@, i as int);
    }
    ls.insert(i, l.to_owned());
    assert(line_views(ls@) =~~= insert_sorted(line_views(pre), l@));
    ls
}

pub open spec fn opt_note_view(o: Option<&String>) -> Option<Seq<char>> {
    match o {
        Some(s) => Some(s@),
        None => None,
    }
}

/// The stored annotation after attaching `new_line`: the old blob's lines and
/// the new one, deduplicated, sorted and rejoined. Attaching a line twice is
/// a no-op the second time.
pub fn append_note(old_note: Option<&String>, new_line: &str) -> (r: String)
    requires
        is_line(new_line@),
    ensures
        r@ == spec_append_note(opt_note_view(old_note), new_line@),
        new_line@.len() != 0 ==> forall|x: Seq<char>|
            #[trigger] note_has_line(r@, x) <==> (old_note is Some && note_has_line(
                old_note->0@,
                x,
            )) || x == new_line@,
{
    let pieces: Vec<String> = match old_note {
        Some(s) => split_note(s.as_str()),
        None => Vec::new(),
    };
    proof {
        if old_note is None {
            assert(line_views(pieces@) =~= Seq::<Seq<char>>::empty());
        }
    }
    let mut acc: Vec<String> = Vec::new();
    proof {
        assert(line_views(acc@) =~= normalize_lines(line_views(pieces@).take(0)));
    }
    let mut k: usize = 0;
    while k < pieces.len()
        invariant
            0 <= k <= pieces@.len(),
            line_views(acc@) == normalize_lines(line_views(pieces@).take(k as int)),
        decreases pieces@.len() - k,
    {
        acc = insert_note_line(acc, (&pieces[k]).as_str());
        proof {
            assert(line_views(pieces@).take(k + 1).drop_last() =~= line_views(pieces@).take(
                k as int,
            ));
            assert(line_views(pieces@).take(k + 1).last() == pieces@[k as int]@);
        }
        k += 1;
    }
    proof {
        assert(line_views(pieces@).take(pieces@.len() as int) =~= line_views(pieces@));
    }
    let acc = insert_note_line(acc, new_line);
    let r = join_note(&acc);
    proof {
        if new_line@.len() != 0 {
            lemma_append_note_lines(opt_note_view(old_note), new_line@);
        }
    }
    r
}

/// Whether the blob carries the given line.
pub fn has_line(note: &str, l: &str) -> (r: bool)
    ensures
        r == note_has_line(note@, l@),
{
    let pieces = split_note(note);
    let mut k: usize = 0;
    while k < pieces.len()
        invariant
            0 <= k <= pieces@.len(),
            line_views(pieces@) == split_lines(note@),
            forall|j: int| 0 <= j < k ==> split_lines(note@)[j] != l@,
        decreases pieces@.len() - k,
    {
        if str_eq((&pieces[k]).as_str(), l) {
            assert(split_lines(note@)[k as int] == l@);
            return true;
        }
        k += 1;
    }
    proof {
        if note_has_line(note@, l@) {
            let j = choose|j: int| 0 <= j < split_lines(note@).len() && split_lines(note@)[j] == l@;
            assert(false);
        }
    }
    false
}

} // verus!
