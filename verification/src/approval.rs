//! The approval rule set: rules read from a rules file, each asking that `n`
//! members of a population sign off on the paths a glob pattern matches.

use crate::notes::{line_views, split_lines, split_note, str_eq};
use vstd::prelude::*;

verus! {

/// Indicates the level of scrutiny a rule asks for.
#[derive(Debug, Clone, Copy, PartialEq, Eq, Structural, Hash, PartialOrd, Ord)]
pub struct Level(pub usize);

impl Level {
    /// Read a level field: a nonempty run of exclamation marks, the level
    /// being one less than their count.
    pub fn parse(line: &str) -> (r: Option<Level>)
        requires
            line@.len() > 0,
        ensures
            match r {
                Some(l) => (forall|i: int| 0 <= i < line@.len() ==> line@[i] == '!') && l.0 + 1
                    == line@.len(),
                None => exists|i: int| 0 <= i < line@.len() && line@[i] != '!',
            },
    {
        let n = line.unicode_len();
        let mut i: usize = 0;
        while i < n
            invariant
                0 <= i <= n,
                n == line@.len(),
                forall|j: int| 0 <= j < i ==> line@[j] == '!',
            decreases n - i,
        {
            if line.get_char(i) != '!' {
                return None;
            }
            i += 1;
        }
        Some(Level(n - 1))
    }

    /// The level written back out: one more exclamation mark than the level.
    pub fn render(&self) -> (r: String)
        requires
            self.0 < usize::MAX,
        ensures
            r@.len() == self.0 + 1,
            forall|i: int| 0 <= i < r@.len() ==> r@[i] == '!',
    {
        let mut r = String::new();
        let mut i: usize = 0;
        while i < self.0 + 1
            invariant
                self.0 < usize::MAX,
                0 <= i <= self.0 + 1,
                r@.len() == i,
                forall|j: int| 0 <= j < i ==> r@[j] == '!',
            decreases self.0 + 1 - i,
    {
            proof {
                reveal_strlit("!");
            }
            r.append("!");
            i += 1;
        }
        r
    }
}

/// Whether a pattern text is a valid glob. Named, not spelled out: the
/// library trusts the glob crate's grammar.
pub uninterp spec fn glob_ok(pat: Seq<char>) -> bool;

/// Whether a valid glob pattern matches a path.
pub uninterp spec fn glob_match(pat: Seq<char>, path: Seq<char>) -> bool;

/// Relies on glob::Pattern::new: whether a text is a valid pattern depends on
/// its characters alone.
#[verifier::external_body]
fn glob_is_valid(pat: &str) -> (r: bool)
    ensures
        r == glob_ok(pat@),
{
    glob::Pattern::new(pat).is_ok()
}

/// Relies on glob::Pattern::new and glob::Pattern::matches: whether a pattern
/// is valid and matches a path depends on the two texts alone. An invalid
/// pattern matches nothing.
#[verifier::external_body]
fn glob_matches(pat: &str, path: &str) -> (r: bool)
    ensures
        r == (glob_ok(pat@) && glob_match(pat@, path@)),
{
    match glob::Pattern::new(pat) {
        Ok(p) => p.matches(path),
        Err(_) => false,
    }
}

/// A rule is satisfied when any `n` members of `pop` approve, at level `lvl`,
/// for the paths that `pat` matches.
#[derive(Debug)]
pub struct Rule {
    pub pat: String,
    pub pop: Vec<String>,
    pub lvl: Level,
    pub n: usize,
}

/// A rule as plain values: pattern, population, level, count.
pub open spec fn rule_view(r: Rule) -> (Seq<char>, Seq<Seq<char>>, int, int) {
    (r.pat@, line_views(r.pop@), r.lvl.0 as int, r.n as int)
}

/// The views of a list of rules.
pub open spec fn rule_views(rs: Seq<Rule>) -> Seq<(Seq<char>, Seq<Seq<char>>, int, int)> {
    rs.map_values(|r: Rule| rule_view(r))
}

/// A rule never lists an approver twice.
pub open spec fn rule_wf(r: Rule) -> bool {
    line_views(r.pop@).no_duplicates()
}

/// Fields of a rule line are separated by blanks.
pub open spec fn is_blank(c: char) -> bool {
    c == ' ' || c == '\t' || c == '\r'
}

/// Index of the first blank in `s`, or `s.len()` if there is none.
pub open spec fn first_blank(s: Seq<char>) -> int
    decreases s.len(),
{
    if s.len() == 0 {
        0
    } else if is_blank(s[0]) {
        0
    } else {
        1 + first_blank(s.skip(1))
    }
}

pub proof fn lemma_first_blank_bounds(s: Seq<char>)
    ensures
        0 <= first_blank(s) <= s.len(),
        forall|j: int| 0 <= j < first_blank(s) ==> !is_blank(s[j]),
        first_blank(s) < s.len() ==> is_blank(s[first_blank(s)]),
    decreases s.len(),
{
    if s.len() != 0 && !is_blank(s[0]) {
        lemma_first_blank_bounds(s.skip(1));
        assert forall|j: int| 0 <= j < first_blank(s) implies !is_blank(s[j]) by {
            if j > 0 {
                assert(!is_blank(s.skip(1)[j - 1]));
            }
        }
    }
}

#[via_fn]
proof fn tokens_decreases(s: Seq<char>) {
    lemma_first_blank_bounds(s);
}

/// The blank-separated fields of a line, in order, each nonempty.
pub open spec fn tokens(s: Seq<char>) -> Seq<Seq<char>>
    decreases s.len(),
        via tokens_decreases
{
    if s.len() == 0 {
        seq![]
    } else if is_blank(s[0]) {
        tokens(s.skip(1))
    } else {
        seq![s.take(first_blank(s))] + tokens(s.skip(first_blank(s)))
    }
}

/// Every field is nonempty.
pub proof fn lemma_tokens_nonempty(s: Seq<char>)
    ensures
        forall|i: int| 0 <= i < tokens(s).len() ==> (#[trigger] tokens(s)[i]).len() > 0,
    decreases s.len(),
{
    lemma_first_blank_bounds(s);
    if s.len() == 0 {
    } else if is_blank(s[0]) {
        lemma_tokens_nonempty(s.skip(1));
        assert forall|i: int| 0 <= i < tokens(s).len() implies (#[trigger] tokens(s)[i]).len()
            > 0 by {
            assert(tokens(s)[i] == tokens(s.skip(1))[i]);
        }
    } else {
        lemma_tokens_nonempty(s.skip(first_blank(s)));
        assert(first_blank(s) >= 1);
        assert forall|i: int| 0 <= i < tokens(s).len() implies (#[trigger] tokens(s)[i]).len()
            > 0 by {
            if i > 0 {
                assert(tokens(s)[i] == tokens(s.skip(first_blank(s)))[i - 1]);
            } else {
                assert(tokens(s)[0] == s.take(first_blank(s)));
                assert(s.take(first_blank(s)).len() == first_blank(s));
            }
        }
    }
}

/// The blank-separated fields of a line, as owned strings.
pub fn tokenize(s: &str) -> (r: Vec<String>)
    ensures
        line_views(r@) == tokens(s@),
    decreases s@.len(),
{
    let n = s.unicode_len();
    if n == 0 {
        let r: Vec<String> = Vec::new();
        assert(line_views(r@) =~= tokens(s@));
        return r;
    }
    let c0 = s.get_char(0);
    if c0 == ' ' || c0 == '\t' || c0 == '\r' {
        let rest = s.substring_char(1, n);
        proof {
            assert(rest@ =~= s@.skip(1));
        }
        return tokenize(rest);
    }
    let mut i: usize = 0;
    while i < n && !(s.get_char(i) == ' ' || s.get_char(i) == '\t' || s.get_char(i) == '\r')
        invariant
            0 <= i <= n,
            n == s@.len(),
            forall|j: int| 0 <= j < i ==> !is_blank(s@[j]),
        decreases n - i,
    {
        i += 1;
    }
    proof {
        lemma_first_blank_bounds(s@);
        let f = first_blank(s@);
        if f < i {
            assert(!is_blank(s@[f]));
            assert(false);
        }
        if f > i {
            assert(i < n);
            assert(is_blank(s@[i as int]));
            assert(false);
        }
    }
    let piece: String = s.substring_char(0, i).to_owned();
    let rest = s.substring_char(i, n);
    proof {
        assert(rest@ =~= s@.skip(i as int));
        assert(rest@.len() < s@.len());
    }
    let mut r = tokenize(rest);
    r.insert(0, piece);
    assert(line_views(r@) =~~= tokens(s@));
    r
}

/// A decimal digit.
pub open spec fn is_digit(c: char) -> bool {
    '0' <= c && c <= '9'
}

/// A nonempty text of decimal digits.
pub open spec fn all_digits(t: Seq<char>) -> bool {
    t.len() > 0 && forall|i: int| 0 <= i < t.len() ==> is_digit(#[trigger] t[i])
}

/// The number the digits spell.
pub open spec fn digits_val(t: Seq<char>) -> int
    decreases t.len(),
{
    if t.len() == 0 {
        0
    } else {
        digits_val(t.drop_last()) * 10 + (t.last() as int - '0' as int)
    }
}

pub proof fn lemma_digits_val_nonneg(t: Seq<char>)
    requires
        forall|i: int| 0 <= i < t.len() ==> is_digit(#[trigger] t[i]),
    ensures
        digits_val(t) >= 0,
    decreases t.len(),
{
    if t.len() != 0 {
        assert(forall|i: int| 0 <= i < t.drop_last().len() ==> is_digit(#[trigger] t.drop_last()[i]));
        lemma_digits_val_nonneg(t.drop_last());
    }
}

/// A longer run of digits never spells a smaller number.
pub proof fn lemma_digits_val_prefix(t: Seq<char>, i: int)
    requires
        forall|j: int| 0 <= j < t.len() ==> is_digit(#[trigger] t[j]),
        0 <= i <= t.len(),
    ensures
        digits_val(t.take(i)) <= digits_val(t),
    decreases t.len() - i,
{
    if i < t.len() {
        lemma_digits_val_prefix(t, i + 1);
        assert(t.take(i + 1).drop_last() =~= t.take(i));
        assert(t.take(i + 1).last() == t[i]);
        assert(forall|j: int| 0 <= j < t.take(i).len() ==> is_digit(#[trigger] t.take(i)[j]));
        lemma_digits_val_nonneg(t.take(i));
        assert(digits_val(t.take(i + 1)) == digits_val(t.take(i)) * 10 + (t[i] as int
            - '0' as int));
        assert(digits_val(t.take(i)) * 10 >= digits_val(t.take(i))) by (nonlinear_arith)
            requires
                digits_val(t.take(i)) >= 0,
        ;
    } else {
        assert(t.take(i) =~= t);
    }
}

/// Read a decimal count. The digits must spell a machine-sized number.
pub fn parse_usize(t: &str) -> (r: Option<usize>)
    ensures
        match r {
            Some(v) => all_digits(t@) && v as int == digits_val(t@) && digits_val(t@)
                <= usize::MAX,
            None => !(all_digits(t@) && digits_val(t@) <= usize::MAX),
        },
{
    let n = t.unicode_len();
    if n == 0 {
        return None;
    }
    let mut acc: usize = 0;
    let mut i: usize = 0;
    proof {
        assert(t@.take(0).len() == 0);
    }
    while i < n
        invariant
            0 <= i <= n,
            n == t@.len(),
            n > 0,
            forall|j: int| 0 <= j < i ==> is_digit(#[trigger] t@[j]),
            acc as int == digits_val(t@.take(i as int)),
        decreases n - i,
    {
        let c = t.get_char(i);
        if !(c >= '0' && c <= '9') {
            return None;
        }
        let d = (c as u32 - '0' as u32) as usize;
        proof {
            assert(t@.take(i + 1).drop_last() =~= t@.take(i as int));
            assert(t@.take(i + 1).last() == t@[i as int]);
        }
        let shifted = match acc.checked_mul(10) {
            Some(s) => s,
            None => {
                proof {
                    lemma_digits_val_overflow(t@, i as int);
                }
                return None;
            },
        };
        let next = match shifted.checked_add(d) {
            Some(s) => s,
            None => {
                proof {
                    lemma_digits_val_overflow(t@, i as int);
                }
                return None;
            },
        };
        acc = next;
        i += 1;
    }
    proof {
        assert(t@.take(n as int) =~= t@);
    }
    Some(acc)
}

/// When one more digit pushes the running value past the machine limit, the
/// whole run of digits spells a number past the limit too.
proof fn lemma_digits_val_overflow(t: Seq<char>, i: int)
    requires
        0 <= i < t.len(),
        forall|j: int| 0 <= j <= i ==> is_digit(#[trigger] t[j]),
        digits_val(t.take(i)) * 10 + (t[i] as int - '0' as int) > usize::MAX,
    ensures
        !(all_digits(t) && digits_val(t) <= usize::MAX),
{
    if all_digits(t) {
        assert(t.take(i + 1).drop_last() =~= t.take(i));
        assert(t.take(i + 1).last() == t[i]);
        lemma_digits_val_prefix(t, i + 1);
    }
}

/// Index of the first comma in `s`, or `s.len()` if there is none.
pub open spec fn first_comma(s: Seq<char>) -> int
    decreases s.len(),
{
    if s.len() == 0 {
        0
    } else if s[0] == ',' {
        0
    } else {
        1 + first_comma(s.skip(1))
    }
}

pub proof fn lemma_first_comma_bounds(s: Seq<char>)
    ensures
        0 <= first_comma(s) <= s.len(),
        forall|j: int| 0 <= j < first_comma(s) ==> s[j] != ',',
        first_comma(s) < s.len() ==> s[first_comma(s)] == ',',
    decreases s.len(),
{
    if s.len() != 0 && s[0] != ',' {
        lemma_first_comma_bounds(s.skip(1));
        assert forall|j: int| 0 <= j < first_comma(s) implies s[j] != ',' by {
            if j > 0 {
                assert(s.skip(1)[j - 1] != ',');
            }
        }
    }
}

#[via_fn]
proof fn split_commas_decreases(s: Seq<char>) {
    lemma_first_comma_bounds(s);
}

/// The comma-separated members of a population field: splitting at every
/// comma, an empty text being one empty member.
pub open spec fn split_commas(s: Seq<char>) -> Seq<Seq<char>>
    decreases s.len(),
        via split_commas_decreases
{
    let i = first_comma(s);
    if i == s.len() {
        seq![s]
    } else {
        seq![s.take(i)] + split_commas(s.skip(i + 1))
    }
}

/// The comma-separated members, as owned strings.
fn split_commas_exec(s: &str) -> (r: Vec<String>)
    ensures
        line_views(r@) == split_commas(s@),
    decreases s@.len(),
{
    let n = s.unicode_len();
    let mut i: usize = 0;
    while i < n && s.get_char(i) != ','
        invariant
            0 <= i <= n,
            n == s@.len(),
            forall|j: int| 0 <= j < i ==> s@[j] != ',',
        decreases n - i,
    {
        i += 1;
    }
    proof {
        lemma_first_comma_bounds(s@);
        let f = first_comma(s@);
        if f < i {
            assert(s@[f] != ',');
            assert(false);
        }
        if f > i {
            assert(i < n);
            assert(s@[i as int] == ',');
            assert(false);
        }
    }
    let piece: String = s.substring_char(0, i).to_owned();
    if i == n {
        let mut r: Vec<String> = Vec::new();
        r.push(piece);
        assert(line_views(r@) =~~= split_commas(s@));
        r
    } else {
        let rest = s.substring_char(i + 1, n);
        proof {
            assert(rest@ =~= s@.skip(i + 1));
        }
        let mut r = split_commas_exec(rest);
        r.insert(0, piece);
        assert(line_views(r@) =~~= split_commas(s@));
        r
    }
}

/// The population deduplicated: each member once, the set kept.
fn dedup_members(members: Vec<String>) -> (r: Vec<String>)
    ensures
        line_views(r@).no_duplicates(),
        line_views(r@).to_set() == line_views(members@).to_set(),
{
    broadcast use vstd::seq_lib::group_seq_properties;

    let mut r: Vec<String> = Vec::new();
    let mut k: usize = 0;
    proof {
        assert(line_views(r@).to_set() =~= line_views(members@).take(0).to_set());
    }
    while k < members.len()
        invariant
            0 <= k <= members@.len(),
            line_views(r@).no_duplicates(),
            line_views(r@).to_set() == line_views(members@).take(k as int).to_set(),
        decreases members@.len() - k,
    {
        let ghost pre = r@;
        let ghost prefix = line_views(members@).take(k as int);
        let present = contains_str(&r, (&members[k]).as_str());
        if !present {
            r.push(members[k].clone());
            proof {
                assert(line_views(r@) =~= line_views(pre).push(members@[k as int]@));
                assert(!line_views(pre).contains(members@[k as int]@));
                line_views(pre).lemma_push_to_set_commute(members@[k as int]@);
            }
        }
        proof {
            assert(line_views(members@).take(k + 1) =~= prefix.push(members@[k as int]@));
            prefix.lemma_push_to_set_commute(members@[k as int]@);
            assert(line_views(r@).to_set() =~= line_views(members@).take(k + 1).to_set());
        }
        k += 1;
    }
    proof {
        assert(line_views(members@).take(members@.len() as int) =~= line_views(members@));
    }
    r
}

/// Whether the list holds the given text.
fn contains_str(v: &Vec<String>, s: &str) -> (r: bool)
    ensures
        r == line_views(v@).contains(s@),
{
    let mut j: usize = 0;
    while j < v.len()
        invariant
            0 <= j <= v@.len(),
            forall|p: int| 0 <= p < j ==> line_views(v@)[p] != s@,
        decreases v@.len() - j,
    {
        if str_eq((&v[j]).as_str(), s) {
            assert(line_views(v@)[j as int] == s@);
            return true;
        }
        j += 1;
    }
    proof {
        if line_views(v@).contains(s@) {
            let p = choose|p: int| 0 <= p < line_views(v@).len() && line_views(v@)[p] == s@;
            assert(false);
        }
    }
    false
}

/// Whether the line spells a rule: four fields at least — a valid glob, a
/// nonempty run of exclamation marks, a machine-sized decimal count, and the
/// population.
pub open spec fn rule_line_ok(line: Seq<char>) -> bool {
    let ts = tokens(line);
    &&& ts.len() >= 4
    &&& glob_ok(ts[0])
    &&& (forall|i: int| 0 <= i < ts[1].len() ==> ts[1][i] == '!')
    &&& all_digits(ts[2])
    &&& digits_val(ts[2]) <= usize::MAX
}

/// What a rule read from a line holds: the pattern text, a level one less
/// than the exclamation count, the decimal count, and the population members
/// deduplicated.
pub open spec fn rule_matches_line(r: Rule, line: Seq<char>) -> bool {
    let ts = tokens(line);
    &&& r.pat@ == ts[0]
    &&& r.lvl.0 + 1 == ts[1].len()
    &&& r.n as int == digits_val(ts[2])
    &&& line_views(r.pop@).no_duplicates()
    &&& line_views(r.pop@).to_set() == split_commas(ts[3]).to_set()
}

impl Rule {
    /// Read one rule line, or nothing where the line does not spell a rule.
    pub fn parse(line: &str) -> (r: Option<Rule>)
        ensures
            r is Some <==> rule_line_ok(line@),
            r is Some ==> rule_matches_line(r->0, line@) && rule_wf(r->0),
    {
        let ts = tokenize(line);
        if ts.len() < 4 {
            return None;
        }
        proof {
            lemma_tokens_nonempty(line@);
            assert(ts@[0]@ == tokens(line@)[0]);
            assert(ts@[1]@ == tokens(line@)[1]);
            assert(ts@[2]@ == tokens(line@)[2]);
            assert(ts@[3]@ == tokens(line@)[3]);
        }
        if !glob_is_valid((&ts[0]).as_str()) {
            return None;
        }
        let lvl = match Level::parse((&ts[1]).as_str()) {
            Some(l) => l,
            None => {
                return None;
            },
        };
        let n = match parse_usize((&ts[2]).as_str()) {
            Some(v) => v,
            None => {
                return None;
            },
        };
        let members = split_commas_exec((&ts[3]).as_str());
        let pop = dedup_members(members);
        let pat = (&ts[0]).as_str().to_owned();
        Some(Rule { pat, pop, lvl, n })
    }
}

/// Index of the first comment mark in `l`, or `l.len()` if there is none.
pub open spec fn first_hash(l: Seq<char>) -> int
    decreases l.len(),
{
    if l.len() == 0 {
        0
    } else if l[0] == '#' {
        0
    } else {
        1 + first_hash(l.skip(1))
    }
}

pub proof fn lemma_first_hash_bounds(l: Seq<char>)
    ensures
        0 <= first_hash(l) <= l.len(),
        forall|j: int| 0 <= j < first_hash(l) ==> l[j] != '#',
        first_hash(l) < l.len() ==> l[first_hash(l)] == '#',
    decreases l.len(),
{
    if l.len() != 0 && l[0] != '#' {
        lemma_first_hash_bounds(l.skip(1));
        assert forall|j: int| 0 <= j < first_hash(l) implies l[j] != '#' by {
            if j > 0 {
                assert(l.skip(1)[j - 1] != '#');
            }
        }
    }
}

/// A line with any comment cut off: what stands before the first `#`.
pub open spec fn cut_comment(l: Seq<char>) -> Seq<char> {
    l.take(first_hash(l))
}

/// The lines of a rules file that spell rules, comments cut: empty lines and
/// lines that do not parse are passed over.
pub open spec fn kept_rule_lines(lines: Seq<Seq<char>>) -> Seq<Seq<char>> {
    lines.map_values(|l: Seq<char>| cut_comment(l)).filter(
        |l: Seq<char>| l.len() > 0 && rule_line_ok(l),
    )
}

/// The comment cut off a line, as text.
fn cut_comment_exec(l: &str) -> (r: String)
    ensures
        r@ == cut_comment(l@),
{
    let n = l.unicode_len();
    let mut i: usize = 0;
    while i < n && l.get_char(i) != '#'
        invariant
            0 <= i <= n,
            n == l@.len(),
            forall|j: int| 0 <= j < i ==> l@[j] != '#',
        decreases n - i,
    {
        i += 1;
    }
    proof {
        lemma_first_hash_bounds(l@);
        let f = first_hash(l@);
        if f < i {
            assert(l@[f] != '#');
            assert(false);
        }
        if f > i {
            assert(i < n);
            assert(l@[i as int] == '#');
            assert(false);
        }
    }
    s_to_owned(l, i)
}

/// The front of a line as an owned string.
fn s_to_owned(l: &str, i: usize) -> (r: String)
    requires
        0 <= i <= l@.len(),
    ensures
        r@ == l@.take(i as int),
{
    let piece = l.substring_char(0, i);
    proof {
        assert(piece@ =~= l@.take(i as int));
    }
    piece.to_owned()
}

/// A copy of a rule, field for field.
fn clone_rule(r: &Rule) -> (c: Rule)
    ensures
        rule_view(c) == rule_view(*r),
        rule_wf(*r) ==> rule_wf(c),
{
    let mut pop: Vec<String> = Vec::new();
    let mut i: usize = 0;
    while i < r.pop.len()
        invariant
            0 <= i <= r.pop@.len(),
            pop@ =~= r.pop@.take(i as int),
        decreases r.pop@.len() - i,
    {
        pop.push(r.pop[i].clone());
        proof {
            assert(pop@ =~= r.pop@.take(i + 1));
        }
        i += 1;
    }
    proof {
        assert(r.pop@.take(r.pop@.len() as int) =~= r.pop@);
    }
    let c = Rule { pat: r.pat.clone(), pop, lvl: r.lvl, n: r.n };
    proof {
        assert(line_views(c.pop@) =~= line_views(r.pop@));
    }
    c
}

/// The rule views matched by a path: those whose pattern is a valid glob that
/// matches it.
pub open spec fn matched_views(
    vs: Seq<(Seq<char>, Seq<Seq<char>>, int, int)>,
    path: Seq<char>,
) -> Seq<(Seq<char>, Seq<Seq<char>>, int, int)> {
    vs.filter(
        |v: (Seq<char>, Seq<Seq<char>>, int, int)| glob_ok(v.0) && glob_match(v.0, path),
    )
}

/// An approval of `name` at level `lvl` takes one slot from a rule that lists
/// the approver at no higher a level.
pub open spec fn approve_rule_view(
    v: (Seq<char>, Seq<Seq<char>>, int, int),
    name: Seq<char>,
    lvl: int,
) -> (Seq<char>, Seq<Seq<char>>, int, int) {
    if v.1.contains(name) && v.2 <= lvl {
        (v.0, v.1.remove_value(name), v.2, v.3 - 1)
    } else {
        v
    }
}

/// The rule views still waiting after an approval: each open slot taken where
/// it applies, and the fully satisfied rules dropped.
pub open spec fn surviving_views(
    vs: Seq<(Seq<char>, Seq<Seq<char>>, int, int)>,
    name: Seq<char>,
    lvl: int,
) -> Seq<(Seq<char>, Seq<Seq<char>>, int, int)> {
    vs.map_values(|v: (Seq<char>, Seq<Seq<char>>, int, int)| approve_rule_view(v, name, lvl)).filter(
        (|v: (Seq<char>, Seq<Seq<char>>, int, int)| v.3 > 0),
    )
}

/// The approval rules in force.
#[derive(Debug)]
pub struct RuleSet(pub Vec<Rule>);

impl RuleSet {
    /// Every rule lists each approver once.
    pub open spec fn wf(self) -> bool {
        forall|i: int| 0 <= i < self.0@.len() ==> rule_wf(#[trigger] self.0@[i])
    }

    /// Read a rules file: one rule per line, comments running from `#` to the
    /// end of the line, empty and unparsable lines passed over.
    pub fn from_lines(text: &str) -> (r: RuleSet)
        ensures
            r.wf(),
            r.0@.len() == kept_rule_lines(split_lines(text@)).len(),
            forall|k: int|
                0 <= k < r.0@.len() ==> rule_matches_line(
                    #[trigger] r.0@[k],
                    kept_rule_lines(split_lines(text@))[k],
                ),
            forall|k: int| 0 <= k < r.0@.len() ==> glob_ok((#[trigger] r.0@[k]).pat@),
    {
        let lines = split_note(text);
        let ghost cuts = split_lines(text@).map_values(|l: Seq<char>| cut_comment(l));
        let mut rules: Vec<Rule> = Vec::new();
        let mut k: usize = 0;
        proof {
            reveal(Seq::filter);
            assert(cuts.take(0).filter((|l: Seq<char>| l.len() > 0 && rule_line_ok(l))) =~= Seq::<
                Seq<char>,
            >::empty());
        }
        while k < lines.len()
            invariant
                0 <= k <= lines@.len(),
                line_views(lines@) == split_lines(text@),
                cuts == split_lines(text@).map_values(|l: Seq<char>| cut_comment(l)),
                rules@.len() == cuts.take(k as int).filter(
                    (|l: Seq<char>| l.len() > 0 && rule_line_ok(l)),
                ).len(),
                forall|j: int|
                    0 <= j < rules@.len() ==> rule_matches_line(
                        #[trigger] rules@[j],
                        cuts.take(k as int).filter(
                            (|l: Seq<char>| l.len() > 0 && rule_line_ok(l)),
                        )[j],
                    ) && rule_wf(rules@[j]) && glob_ok(rules@[j].pat@),
            decreases lines@.len() - k,
        {
            let ghost prefix = cuts.take(k as int).filter(
                (|l: Seq<char>| l.len() > 0 && rule_line_ok(l)),
            );
            let cut = cut_comment_exec((&lines[k]).as_str());
            proof {
                reveal(Seq::filter);
                assert(cuts[k as int] == cut_comment(split_lines(text@)[k as int]));
                assert(cut@ == cuts[k as int]);
                assert(cuts.take(k + 1).drop_last() =~= cuts.take(k as int));
                assert(cuts.take(k + 1).last() == cuts[k as int]);
            }
            if cut.unicode_len() > 0 {
                match Rule::parse(cut.as_str()) {
                    Some(rule) => {
                        rules.push(rule);
                    },
                    None => {},
                }
            }
            k += 1;
        }
        proof {
            assert(cuts.take(lines@.len() as int) =~= cuts);
        }
        RuleSet(rules)
    }

    /// The rules whose pattern matches the given path.
    pub fn matching(&self, path: &str) -> (r: RuleSet)
        requires
            self.wf(),
        ensures
            r.wf(),
            rule_views(r.0@) == matched_views(rule_views(self.0@), path@),
    {
        let mut kept: Vec<Rule> = Vec::new();
        let mut i: usize = 0;
        proof {
            reveal(Seq::filter);
            assert(matched_views(rule_views(self.0@).take(0), path@) =~= rule_views(kept@));
        }
        while i < self.0.len()
            invariant
                0 <= i <= self.0@.len(),
                self.wf(),
                rule_views(kept@) == matched_views(rule_views(self.0@).take(i as int), path@),
                forall|j: int| 0 <= j < kept@.len() ==> rule_wf(#[trigger] kept@[j]),
            decreases self.0@.len() - i,
        {
            let ghost prefix = rule_views(self.0@).take(i as int);
            proof {
                reveal(Seq::filter);
                assert(rule_views(self.0@).take(i + 1).drop_last() =~= prefix);
                assert(rule_views(self.0@).take(i + 1).last() == rule_view(self.0@[i as int]));
            }
            if glob_matches((&self.0[i].pat).as_str(), path) {
                let ghost prekept = kept@;
                kept.push(clone_rule(&self.0[i]));
                proof {
                    reveal(Seq::filter);
                    assert(rule_views(kept@) =~= rule_views(prekept).push(
                        rule_view(self.0@[i as int]),
                    ));
                    assert(rule_views(kept@) =~= matched_views(
                        rule_views(self.0@).take(i + 1),
                        path@,
                    ));
                }
            } else {
                proof {
                    reveal(Seq::filter);
                    assert(rule_views(kept@) =~= matched_views(
                        rule_views(self.0@).take(i + 1),
                        path@,
                    ));
                }
            }
            i += 1;
        }
        proof {
            assert(rule_views(self.0@).take(self.0@.len() as int) =~= rule_views(self.0@));
        }
        RuleSet(kept)
    }

    /// Record that `name` approved at level `lvl`: every rule that lists the
    /// approver at no higher a level loses that slot, and rules with no open
    /// slots left are dropped.
    pub fn approve(&mut self, name: &str, lvl: Level)
        requires
            old(self).wf(),
            forall|i: int|
                0 <= i < old(self).0@.len() ==> ((line_views(
                    (#[trigger] old(self).0@[i]).pop@,
                ).contains(name@) && old(self).0@[i].lvl.0 <= lvl.0) ==> old(self).0@[i].n >= 1),
        ensures
            final(self).wf(),
            rule_views(final(self).0@) == surviving_views(
                rule_views(old(self).0@),
                name@,
                lvl.0 as int,
            ),
    {
        let n = self.0.len();
        let mut i: usize = 0;
        while i < n
            invariant
                0 <= i <= n,
                n == self.0@.len(),
                self.0@.len() == old(self).0@.len(),
                self.wf(),
                forall|j: int|
                    0 <= j < old(self).0@.len() ==> ((line_views(
                        (#[trigger] old(self).0@[j]).pop@,
                    ).contains(name@) && old(self).0@[j].lvl.0 <= lvl.0) ==> old(self).0@[j].n
                        >= 1),
                forall|j: int| i <= j < n ==> self.0@[j] == old(self).0@[j],
                forall|j: int|
                    0 <= j < i ==> rule_view(#[trigger] self.0@[j]) == approve_rule_view(
                        rule_view(old(self).0@[j]),
                        name@,
                        lvl.0 as int,
                    ),
            decreases n - i,
        {
            let applies = self.0[i].lvl.0 <= lvl.0;
            let hit = if applies {
                find_member(&self.0[i].pop, name)
            } else {
                None
            };
            match hit {
                Some(p) => {
                    let ghost prerule = self.0@[i as int];
                    let slot = &mut self.0[i];
                    slot.n = slot.n - 1;
                    slot.pop.remove(p);
                    proof {
                        let oldpop = line_views(prerule.pop@);
                        assert(line_views(self.0@[i as int].pop@) =~= oldpop.remove(p as int));
                        oldpop.index_of_first_ensures(name@);
                        assert(oldpop.index_of_first(name@) == Some(p as int)) by {
                            assert(oldpop.contains(name@)) by {
                                assert(oldpop[p as int] == name@);
                            }
                            match oldpop.index_of_first(name@) {
                                Some(q) => {
                                    if q < p {
                                        assert(oldpop[q] != name@);
                                    }
                                    if q > p {
                                        assert(oldpop[p as int] != name@);
                                    }
                                },
                                None => {
                                    assert(false);
                                },
                            }
                        }
                        assert(oldpop.remove_value(name@) == oldpop.remove(p as int));
                        assert(line_views(self.0@[i as int].pop@).no_duplicates()) by {
                            let np = oldpop.remove(p as int);
                            assert forall|a: int, b: int|
                                0 <= a < b < np.len() implies np[a] != np[b] by {
                                if b < p {
                                    assert(np[a] == oldpop[a] && np[b] == oldpop[b]);
                                } else if a < p {
                                    assert(np[a] == oldpop[a] && np[b] == oldpop[b + 1]);
                                } else {
                                    assert(np[a] == oldpop[a + 1] && np[b] == oldpop[b + 1]);
                                }
                            }
                        }
                    }
                },
                None => {},
            }
            i += 1;
        }
        let ghost mapped = old(self).0@.map_values(
            |r: Rule| rule_view(r),
        ).map_values(
            |v: (Seq<char>, Seq<Seq<char>>, int, int)| approve_rule_view(v, name@, lvl.0 as int),
        );
        proof {
            assert(rule_views(self.0@) =~= mapped);
        }
        // drop the rules that are fully satisfied
        let m = self.0.len();
        let mut kept: Vec<Rule> = Vec::new();
        let mut k: usize = 0;
        proof {
            reveal(Seq::filter);
            assert(rule_views(self.0@).take(0).filter(
                (|v: (Seq<char>, Seq<Seq<char>>, int, int)| v.3 > 0),
            ) =~= rule_views(kept@));
        }
        while k < m
            invariant
                0 <= k <= m,
                m == self.0@.len(),
                self.wf(),
                rule_views(self.0@) == mapped,
                rule_views(kept@) == rule_views(self.0@).take(k as int).filter(
                    (|v: (Seq<char>, Seq<Seq<char>>, int, int)| v.3 > 0),
                ),
                forall|j: int| 0 <= j < kept@.len() ==> rule_wf(#[trigger] kept@[j]),
            decreases m - k,
        {
            let ghost prefix = rule_views(self.0@).take(k as int);
            proof {
                reveal(Seq::filter);
                assert(rule_views(self.0@).take(k + 1).drop_last() =~= prefix);
                assert(rule_views(self.0@).take(k + 1).last() == rule_view(self.0@[k as int]));
            }
            if self.0[k].n > 0 {
                let ghost prekept = kept@;
                kept.push(clone_rule(&self.0[k]));
                proof {
                    reveal(Seq::filter);
                    assert(rule_views(kept@) =~= rule_views(prekept).push(
                        rule_view(self.0@[k as int]),
                    ));
                    assert(rule_views(kept@) =~= rule_views(self.0@).take(k + 1).filter(
                        (|v: (Seq<char>, Seq<Seq<char>>, int, int)| v.3 > 0),
                    ));
                }
            } else {
                proof {
                    reveal(Seq::filter);
                    assert(rule_views(kept@) =~= rule_views(self.0@).take(k + 1).filter(
                        (|v: (Seq<char>, Seq<Seq<char>>, int, int)| v.3 > 0),
                    ));
                }
            }
            k += 1;
        }
        proof {
            assert(rule_views(self.0@).take(m as int) =~= rule_views(self.0@));
        }
        self.0 = kept;
        proof {
            assert(surviving_views(rule_views(old(self).0@), name@, lvl.0 as int) == mapped.filter(
                (|v: (Seq<char>, Seq<Seq<char>>, int, int)| v.3 > 0),
            ));
        }
    }
}

/// Where `name` stands in the population, if it does.
fn find_member(pop: &Vec<String>, name: &str) -> (r: Option<usize>)
    ensures
        match r {
            Some(p) => 0 <= p < pop@.len() && line_views(pop@)[p as int] == name@,
            None => !line_views(pop@).contains(name@),
        },
{
    let mut i: usize = 0;
    while i < pop.len()
        invariant
            0 <= i <= pop@.len(),
            forall|j: int| 0 <= j < i ==> line_views(pop@)[j] != name@,
        decreases pop@.len() - i,
    {
        if str_eq((&pop[i]).as_str(), name) {
            return Some(i);
        }
        i += 1;
    }
    proof {
        if line_views(pop@).contains(name@) {
            let j = choose|j: int| 0 <= j < line_views(pop@).len() && line_views(pop@)[j] == name@;
            assert(false);
        }
    }
    None
}

} // verus!
