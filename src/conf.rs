//! The entry parser: definition lines `key = value`, comment lines and the
//! negation marker that exempts an entry from validation.

use vstd::prelude::*;
use crate::error::{ConfError, ErrorView};
use crate::outcome::{
    LineOutcome, collect, lemma_collect_first_failure, lemma_collect_items,
    lemma_collect_prefix_failure, lemma_collect_skip,
};
use crate::text::{
    chars_of, find_char, is_first_index, is_white, join_lines, lemma_split_join,
    lemma_trim_end_concat, lemma_trim_end_shape, lemma_trim_start_concat, lemma_trim_start_shape,
    lemma_trim_start_white_prefix, line_ranges, split_lines, trim, trim_end, trim_range,
    trim_start,
};
use crate::value::{Value, ValueView, classify};

verus! {

/// One parsed definition line.
#[derive(Debug, PartialEq)]
pub struct Sysctl<'a> {
    pub variable: &'a str,
    pub value: Value<'a>,
    pub ignore_failure: bool,
}

/// A [`Sysctl`] over sequences of characters.
pub struct SysctlView {
    pub variable: Seq<char>,
    pub value: ValueView,
    pub ignore_failure: bool,
}

impl<'a> View for Sysctl<'a> {
    type V = SysctlView;

    open spec fn view(&self) -> SysctlView {
        SysctlView {
            variable: self.variable@,
            value: self.value@,
            ignore_failure: self.ignore_failure,
        }
    }
}

/// The entries of a configuration text, in the order of their lines.
#[derive(Debug, PartialEq)]
pub struct SysctlConf<'a> {
    pub sysctls: Vec<Sysctl<'a>>,
}

impl<'a> View for SysctlConf<'a> {
    type V = Seq<SysctlView>;

    open spec fn view(&self) -> Seq<SysctlView> {
        self.sysctls@.map_values(|s: Sysctl<'a>| s@)
    }
}

/// A trimmed line that holds nothing: blank, or a comment led by `;` or `#`.
pub open spec fn is_skipped(l: Seq<char>) -> bool {
    l.len() == 0 || l[0] == ';' || l[0] == '#'
}

/// The first occurrence of `d` in `l`, where `l` holds one.
pub open spec fn first_index(l: Seq<char>, d: char) -> int {
    choose|i: int| is_first_index(l, d, i)
}

/// The trimmed text before and after the first `d` in the line `l`.
pub open spec fn split_pair(l: Seq<char>, d: char) -> Result<(Seq<char>, Seq<char>), ErrorView> {
    if l.contains(d) {
        let i = first_index(l, d);
        let k = trim(l.subrange(0, i));
        if k.len() == 0 {
            Err(ErrorView::MissingKey { line: l })
        } else {
            Ok((k, trim(l.subrange(i + 1, l.len() as int))))
        }
    } else {
        Err(ErrorView::MissingDelimiter { line: l })
    }
}

/// The entry that the definition line `l` states: a key led by `-` is exempt
/// from validation and loses the `-` and the whitespace after it.
pub open spec fn parse_definition(l: Seq<char>) -> Result<SysctlView, ErrorView> {
    match split_pair(l, '=') {
        Err(e) => Err(e),
        Ok((k, v)) => {
            let negated = k[0] == '-';
            let key = if negated {
                trim(k.drop_first())
            } else {
                k
            };
            if key.len() == 0 {
                Err(ErrorView::MissingKey { line: l })
            } else {
                Ok(SysctlView { variable: key, value: classify(v), ignore_failure: negated })
            }
        },
    }
}

/// What the raw line `raw` of a configuration text contributes.
pub open spec fn entry_line(raw: Seq<char>) -> LineOutcome<SysctlView> {
    let l = trim(raw);
    if is_skipped(l) {
        LineOutcome::Skip
    } else {
        match parse_definition(l) {
            Ok(s) => LineOutcome::Item(s),
            Err(e) => LineOutcome::Fail(e),
        }
    }
}

/// What each of the raw lines `ls` contributes.
pub open spec fn line_outcomes(ls: Seq<Seq<char>>) -> Seq<LineOutcome<SysctlView>> {
    ls.map_values(|l: Seq<char>| entry_line(l))
}

/// The entries of the raw lines `ls`, or the first malformed line.
pub open spec fn parse_lines(ls: Seq<Seq<char>>) -> Result<Seq<SysctlView>, ErrorView> {
    collect(line_outcomes(ls))
}

/// The entries of the configuration text `t`, or its first malformed line.
pub open spec fn parse_conf(t: Seq<char>) -> Result<Seq<SysctlView>, ErrorView> {
    parse_lines(split_lines(t))
}

/// The first occurrence of a character is the only one that `first_index` can pick.
proof fn lemma_first_index(l: Seq<char>, d: char, i: int)
    requires
        is_first_index(l, d, i),
    ensures
        l.contains(d),
        first_index(l, d) == i,
{
    assert(l[i] == d);
    let j = first_index(l, d);
    assert(is_first_index(l, d, j));
    if j < i {
        assert(l[j] != d);
    } else if i < j {
        assert(l[i] != d);
    }
}

/// Whether the trimmed line `line` holds nothing: blank, or a comment.
pub fn is_comment_or_whitespace(line: &str) -> (r: bool)
    ensures
        r == is_skipped(line@),
{
    line.unicode_len() == 0 || line.get_char(0) == ';' || line.get_char(0) == '#'
}

/// Whether the trimmed line `line` is a definition line.
pub fn is_definition_line(line: &str) -> (r: bool)
    ensures
        r == !is_skipped(line@),
{
    !is_comment_or_whitespace(line)
}

/// Splits `line` at the first `delimiter` into its trimmed left and right
/// parts. Fails when the delimiter is missing or the left part is empty.
pub fn parse_line_pair<'a>(line: &'a str, delimiter: char) -> (r: Result<
    (&'a str, &'a str),
    ConfError,
>)
    ensures
        match r {
            Ok((k, v)) => split_pair(line@, delimiter) == Ok::<_, ErrorView>((k@, v@)),
            Err(e) => split_pair(line@, delimiter) == Err::<(Seq<char>, Seq<char>), _>(e@),
        },
{
    let c = chars_of(line);
    let n = c.len();
    assert(c@.subrange(0, n as int) =~= c@);
    match find_char(&c, 0, n, delimiter) {
        None => Err(ConfError::MissingDelimiter { line: line.to_owned() }),
        Some(i) => {
            proof {
                lemma_first_index(line@, delimiter, i as int);
            }
            let (ka, kb) = trim_range(&c, 0, i);
            if ka == kb {
                return Err(ConfError::MissingKey { line: line.to_owned() });
            }
            let (va, vb) = trim_range(&c, i + 1, n);
            Ok((line.substring_char(ka, kb), line.substring_char(va, vb)))
        },
    }
}

impl<'a> Sysctl<'a> {
    /// Parses the definition line `line` into an entry.
    pub fn parse(line: &'a str) -> (r: Result<Sysctl<'a>, ConfError>)
        ensures
            match r {
                Ok(s) => parse_definition(line@) == Ok::<_, ErrorView>(s@),
                Err(e) => parse_definition(line@) == Err::<SysctlView, _>(e@),
            },
    {
        let (variable, value) = match parse_line_pair(line, '=') {
            Ok(p) => p,
            Err(e) => return Err(e),
        };
        let c = chars_of(variable);
        let n = c.len();
        let negated = c[0] == '-';
        let key = if negated {
            let (a, b) = trim_range(&c, 1, n);
            assert(c@.subrange(1, n as int) =~= c@.drop_first());
            variable.substring_char(a, b)
        } else {
            variable
        };
        if key.unicode_len() == 0 {
            return Err(ConfError::MissingKey { line: line.to_owned() });
        }
        Ok(Sysctl { variable: key, value: Value::from(value), ignore_failure: negated })
    }
}

impl<'a> SysctlConf<'a> {
    /// Parses a configuration text: one entry per definition line, in order;
    /// blank and comment lines are passed over; the first malformed line
    /// fails the whole text.
    pub fn parse(content: &'a str) -> (r: Result<SysctlConf<'a>, ConfError>)
        ensures
            match r {
                Ok(conf) => parse_conf(content@) == Ok::<_, ErrorView>(conf@),
                Err(e) => parse_conf(content@) == Err::<Seq<SysctlView>, _>(e@),
            },
    {
        let c = chars_of(content);
        let ranges = line_ranges(&c);
        let ghost outs = line_outcomes(split_lines(content@));
        let mut sysctls: Vec<Sysctl<'a>> = Vec::new();
        let mut k: usize = 0;
        assert(outs.subrange(0, 0) =~= Seq::empty());
        assert(sysctls@.map_values(|s: Sysctl<'a>| s@) =~= Seq::empty());
        while k < ranges.len()
            invariant
                c@ == content@,
                outs == line_outcomes(split_lines(content@)),
                ranges@.len() == split_lines(c@).len(),
                forall|j: int|
                    0 <= j < ranges@.len() ==> {
                        &&& (#[trigger] ranges@[j]).0 <= ranges@[j].1 <= c@.len()
                        &&& c@.subrange(ranges@[j].0 as int, ranges@[j].1 as int) == split_lines(
                            c@,
                        )[j]
                    },
                k <= ranges@.len(),
                collect(outs.subrange(0, k as int)) == Ok::<_, ErrorView>(
                    sysctls@.map_values(|s: Sysctl<'a>| s@),
                ),
            decreases ranges@.len() - k,
        {
            let (lo, hi) = ranges[k];
            let (a, b) = trim_range(&c, lo, hi);
            let line = content.substring_char(a, b);
            assert(outs.subrange(0, k + 1).drop_last() =~= outs.subrange(0, k as int));
            assert(outs[k as int] == entry_line(split_lines(c@)[k as int]));
            if is_definition_line(line) {
                match Sysctl::parse(line) {
                    Ok(s) => {
                        sysctls.push(s);
                        assert(sysctls@.map_values(|s: Sysctl<'a>| s@) =~= collect(
                            outs.subrange(0, k as int),
                        )->Ok_0.push(s@));
                    },
                    Err(e) => {
                        proof {
                            lemma_collect_prefix_failure(outs, k + 1);
                        }
                        return Err(e);
                    },
                }
            }
            k += 1;
        }
        assert(outs.subrange(0, k as int) =~= outs);
        Ok(SysctlConf { sysctls })
    }
}

/// A blank line or a comment line contributes no entry and no failure:
/// inserted anywhere among the lines of a text, it leaves the result as it was.
pub proof fn lemma_comment_and_blank_lines(ls: Seq<Seq<char>>, l: Seq<char>, i: int)
    requires
        is_skipped(trim(l)),
        0 <= i <= ls.len(),
    ensures
        entry_line(l) is Skip,
        parse_lines(ls.insert(i, l)) == parse_lines(ls),
{
    assert(line_outcomes(ls.insert(i, l)) =~= line_outcomes(ls).insert(i, LineOutcome::Skip));
    lemma_collect_skip(line_outcomes(ls), i);
}

/// A definition line without `=` fails with `MissingDelimiter`, and one whose
/// key is empty, before or after its `-` marker, fails with `MissingKey`; the
/// value is never classified. The first such line, after lines that parse,
/// is the failure of the whole text.
pub proof fn lemma_malformed_lines(ls: Seq<Seq<char>>, i: int)
    requires
        0 <= i < ls.len(),
        forall|j: int| 0 <= j < i ==> !(entry_line(#[trigger] ls[j]) is Fail),
        !is_skipped(trim(ls[i])),
    ensures
        ({
            let l = trim(ls[i]);
            !l.contains('=') ==> parse_lines(ls) == Err::<Seq<SysctlView>, _>(
                ErrorView::MissingDelimiter { line: l },
            )
        }),
        ({
            let l = trim(ls[i]);
            let k = trim(l.subrange(0, first_index(l, '=')));
            l.contains('=') && (k.len() == 0 || (k[0] == '-' && trim(k.drop_first()).len() == 0))
                ==> parse_lines(ls) == Err::<Seq<SysctlView>, _>(
                ErrorView::MissingKey { line: l },
            )
        }),
{
    let outs = line_outcomes(ls);
    assert forall|j: int| 0 <= j < i implies !(#[trigger] outs[j] is Fail) by {
        assert(outs[j] == entry_line(ls[j]));
    }
    let l = trim(ls[i]);
    let k = trim(l.subrange(0, first_index(l, '=')));
    if !l.contains('=') || k.len() == 0 || (k[0] == '-' && trim(k.drop_first()).len() == 0) {
        lemma_collect_first_failure(outs, i);
    }
}

/// Text that can stand as the key of a definition line: it holds no `=` and
/// more than whitespace.
pub open spec fn is_key_text(k: Seq<char>) -> bool {
    !k.contains('=') && trim(k).len() > 0
}

/// Key text whose first character, once trimmed, opens no comment and no
/// negation marker.
pub open spec fn is_plain_key_text(k: Seq<char>) -> bool {
    &&& is_key_text(k)
    &&& trim(k)[0] != ';'
    &&& trim(k)[0] != '#'
    &&& trim(k)[0] != '-'
}

/// The line `k=v`.
pub open spec fn definition_text(k: Seq<char>, v: Seq<char>) -> Seq<char> {
    k + seq!['='] + v
}

/// The definition line `k=v` gives an entry keyed by `k` trimmed, not exempt
/// from validation.
pub proof fn lemma_definition_line_key(k: Seq<char>, v: Seq<char>)
    requires
        is_plain_key_text(k),
    ensures
        entry_line(definition_text(k, v)) is Item,
        entry_line(definition_text(k, v))->Item_0.variable == trim(k),
        !entry_line(definition_text(k, v))->Item_0.ignore_failure,
{
    let l = definition_text(k, v);
    let k1 = trim_start(k);
    lemma_trim_start_shape(k);
    lemma_trim_end_shape(k1);
    assert(k1.len() > 0);
    assert(l =~= k + (seq!['='] + v));
    lemma_trim_start_concat(k, seq!['='] + v);
    let a = k1 + seq!['='];
    assert(k1 + (seq!['='] + v) =~= a + v);
    lemma_trim_end_concat(a, v);
    let t = a + trim_end(v);
    assert(trim(l) == t);
    assert forall|j: int| 0 <= j < k1.len() implies t[j] != '=' by {
        assert(t[j] == k[k.len() - k1.len() + j]);
    }
    lemma_first_index(t, '=', k1.len() as int);
    assert(t.subrange(0, k1.len() as int) =~= k1);
    assert(trim_start(k1) == k1);
    assert(trim(k)[0] == k1[0]);
}

/// Definition lines `k=v` give one entry each, in the order of the lines,
/// each keyed by its `k` trimmed: no key is lost, repeated or reordered.
pub proof fn lemma_keys_in_order(ks: Seq<Seq<char>>, vs: Seq<Seq<char>>)
    requires
        ks.len() == vs.len(),
        forall|i: int| 0 <= i < ks.len() ==> is_plain_key_text(#[trigger] ks[i]),
    ensures
        ({
            let ls = Seq::new(ks.len(), |i: int| definition_text(ks[i], vs[i]));
            &&& parse_lines(ls) is Ok
            &&& parse_lines(ls)->Ok_0.len() == ks.len()
            &&& forall|i: int|
                0 <= i < ks.len() ==> (#[trigger] parse_lines(ls)->Ok_0[i]).variable == trim(
                    ks[i],
                ) && !parse_lines(ls)->Ok_0[i].ignore_failure
        }),
{
    let ls = Seq::new(ks.len(), |i: int| definition_text(ks[i], vs[i]));
    let outs = line_outcomes(ls);
    assert forall|j: int| 0 <= j < outs.len() implies #[trigger] outs[j] is Item
        && outs[j]->Item_0.variable == trim(ks[j]) && !outs[j]->Item_0.ignore_failure by {
        lemma_definition_line_key(ks[j], vs[j]);
    }
    lemma_collect_items(outs);
}

/// A `-` before the key, with any whitespace after it, marks the entry as
/// exempt from validation; the stored key is `k` trimmed, without the marker.
pub proof fn lemma_negation_marker(w: Seq<char>, k: Seq<char>, v: Seq<char>)
    requires
        forall|i: int| 0 <= i < w.len() ==> is_white(#[trigger] w[i]),
        is_key_text(k),
    ensures
        entry_line(seq!['-'] + w + definition_text(k, v)) is Item,
        entry_line(seq!['-'] + w + definition_text(k, v))->Item_0.variable == trim(k),
        entry_line(seq!['-'] + w + definition_text(k, v))->Item_0.ignore_failure,
{
    let l = seq!['-'] + w + definition_text(k, v);
    let a = seq!['-'] + w + k + seq!['='];
    assert(l =~= a + v);
    assert(!is_white('-'));
    assert(trim_start(l) == l);
    lemma_trim_end_concat(a, v);
    let t = a + trim_end(v);
    assert(trim(l) == t);
    let p = (1 + w.len() + k.len()) as int;
    assert(!is_white('='));
    assert forall|j: int| 0 <= j < p implies t[j] != '=' by {
        if 1 <= j < 1 + w.len() {
            assert(t[j] == w[j - 1]);
        } else if j >= 1 + w.len() {
            assert(t[j] == k[j - 1 - w.len()]);
        }
    }
    assert(t[p] == '=');
    lemma_first_index(t, '=', p);
    let left = t.subrange(0, p);
    assert(left =~= seq!['-'] + w + k);
    assert(trim_start(left) == left);
    let k1 = trim_start(k);
    lemma_trim_start_shape(k);
    lemma_trim_end_shape(k1);
    let kw = k.subrange(0, k.len() - k1.len());
    assert(k =~= kw + k1);
    assert forall|i: int| 0 <= i < kw.len() implies is_white(#[trigger] kw[i]) by {
        assert(kw[i] == k[i]);
    }
    lemma_trim_end_concat(kw, k1);
    lemma_trim_end_concat(seq!['-'] + w, k);
    let kt = trim(left);
    assert(kt == seq!['-'] + w + trim_end(k));
    assert(kt.drop_first() =~= w + (kw + trim_end(k1)));
    lemma_trim_start_white_prefix(w, kw + trim_end(k1));
    lemma_trim_start_white_prefix(kw, trim_end(k1));
    assert(trim_end(k1)[0] == k1[0]);
    assert(trim_start(trim_end(k1)) == trim_end(k1));
    assert(trim_end(trim_end(k1)) == trim_end(k1));
}

/// A text of definition lines `k=v`, one per line, parses to one entry per
/// line, in the order of the lines, each keyed by its `k` trimmed.
pub proof fn lemma_text_keys_in_order(ks: Seq<Seq<char>>, vs: Seq<Seq<char>>)
    requires
        ks.len() == vs.len(),
        ks.len() >= 1,
        forall|i: int| 0 <= i < ks.len() ==> is_plain_key_text(#[trigger] ks[i]),
        forall|i: int| 0 <= i < ks.len() ==> !(#[trigger] ks[i]).contains('\n'),
        forall|i: int| 0 <= i < vs.len() ==> !(#[trigger] vs[i]).contains('\n'),
    ensures
        ({
            let t = join_lines(Seq::new(ks.len(), |i: int| definition_text(ks[i], vs[i])));
            &&& parse_conf(t) is Ok
            &&& parse_conf(t)->Ok_0.len() == ks.len()
            &&& forall|i: int|
                0 <= i < ks.len() ==> (#[trigger] parse_conf(t)->Ok_0[i]).variable == trim(ks[i])
                    && !parse_conf(t)->Ok_0[i].ignore_failure
        }),
{
    let ls = Seq::new(ks.len(), |i: int| definition_text(ks[i], vs[i]));
    assert forall|i: int| 0 <= i < ls.len() implies !(#[trigger] ls[i]).contains('\n') by {
        assert(!ks[i].contains('\n'));
        assert(!vs[i].contains('\n'));
        assert forall|j: int| 0 <= j < ls[i].len() implies ls[i][j] != '\n' by {
            if j < ks[i].len() {
                assert(ls[i][j] == ks[i][j]);
            } else if j > ks[i].len() {
                assert(ls[i][j] == vs[i][j - ks[i].len() - 1]);
            }
        }
    }
    lemma_split_join(ls);
    lemma_keys_in_order(ks, vs);
}

} // verus!
