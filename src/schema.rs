//! The schema parser, which reads a declared type per key, and the validator,
//! which holds parsed entries to a schema.

use vstd::prelude::*;
use crate::conf::{
    SysctlConf, SysctlView, is_definition_line, is_skipped, parse_line_pair, split_pair,
};
use crate::error::{ConfError, ErrorView};
use crate::outcome::{LineOutcome, collect, lemma_collect_prefix_failure};
use crate::text::{chars_of, line_ranges, same_text, split_lines, trim, trim_range};
use crate::value::{Type, render, type_named};

verus! {

/// One schema line: a key and the type it is declared with.
#[derive(Debug, PartialEq)]
pub struct SchemaEntry<'a> {
    pub variable: &'a str,
    pub ty: Type,
}

/// The declared type of each key. A key declared twice has the type of its
/// last declaration.
#[derive(Debug)]
pub struct Schema<'a> {
    entries: Vec<SchemaEntry<'a>>,
}

/// The mapping that a sequence of declarations builds, a later declaration of
/// a key overwriting an earlier one.
pub open spec fn map_of(ds: Seq<(Seq<char>, Type)>) -> Map<Seq<char>, Type>
    decreases ds.len(),
{
    if ds.len() == 0 {
        Map::empty()
    } else {
        map_of(ds.drop_last()).insert(ds.last().0, ds.last().1)
    }
}

impl<'a> View for SchemaEntry<'a> {
    type V = (Seq<char>, Type);

    open spec fn view(&self) -> (Seq<char>, Type) {
        (self.variable@, self.ty)
    }
}

impl<'a> Schema<'a> {
    /// The declarations in the order of their lines.
    pub closed spec fn declarations(&self) -> Seq<(Seq<char>, Type)> {
        self.entries@.map_values(|e: SchemaEntry<'a>| e@)
    }
}

impl<'a> View for Schema<'a> {
    type V = Map<Seq<char>, Type>;

    open spec fn view(&self) -> Map<Seq<char>, Type> {
        map_of(self.declarations())
    }
}

/// The declaration that the schema line `l` states.
pub open spec fn parse_declaration(l: Seq<char>) -> Result<(Seq<char>, Type), ErrorView> {
    match split_pair(l, ':') {
        Err(e) => Err(e),
        Ok((k, name)) => match type_named(name) {
            Some(t) => Ok((k, t)),
            None => Err(ErrorView::UnknownType { name }),
        },
    }
}

/// What the raw line `raw` of a schema text contributes.
pub open spec fn schema_line(raw: Seq<char>) -> LineOutcome<(Seq<char>, Type)> {
    let l = trim(raw);
    if is_skipped(l) {
        LineOutcome::Skip
    } else {
        match parse_declaration(l) {
            Ok(d) => LineOutcome::Item(d),
            Err(e) => LineOutcome::Fail(e),
        }
    }
}

/// What each line of the schema text `t` contributes.
pub open spec fn schema_outcomes(t: Seq<char>) -> Seq<LineOutcome<(Seq<char>, Type)>> {
    split_lines(t).map_values(|l: Seq<char>| schema_line(l))
}

/// The mapping that the schema text `t` declares, or its first malformed line.
pub open spec fn parse_schema(t: Seq<char>) -> Result<Map<Seq<char>, Type>, ErrorView> {
    match collect(schema_outcomes(t)) {
        Ok(ds) => Ok(map_of(ds)),
        Err(e) => Err(e),
    }
}

/// The failure, if any, of the entry `s` against the schema `m`. An exempt
/// entry never fails.
pub open spec fn check_entry(s: SysctlView, m: Map<Seq<char>, Type>) -> Option<ErrorView> {
    if s.ignore_failure {
        None
    } else if !m.contains_key(s.variable) {
        Some(ErrorView::UndeclaredKey { key: s.variable })
    } else if !m[s.variable].accepts(render(s.value)) {
        Some(
            ErrorView::TypeMismatch {
                key: s.variable,
                expected: m[s.variable],
                text: render(s.value),
            },
        )
    } else {
        None
    }
}

/// The outcome of validating the entries `es` against `m`: the failure of the
/// first entry that fails, if any.
pub open spec fn validation(es: Seq<SysctlView>, m: Map<Seq<char>, Type>) -> Result<(), ErrorView>
    decreases es.len(),
{
    if es.len() == 0 {
        Ok(())
    } else {
        match validation(es.drop_last(), m) {
            Err(e) => Err(e),
            Ok(()) => match check_entry(es.last(), m) {
                Some(e) => Err(e),
                None => Ok(()),
            },
        }
    }
}

/// The type of the last declaration of `key` among `ds`, if any.
proof fn lemma_map_of_last(ds: Seq<(Seq<char>, Type)>, key: Seq<char>, i: int)
    requires
        -1 <= i < ds.len(),
        forall|j: int| i < j < ds.len() ==> (#[trigger] ds[j]).0 != key,
        0 <= i ==> ds[i].0 == key,
    ensures
        i < 0 ==> !map_of(ds).contains_key(key),
        0 <= i ==> map_of(ds).contains_key(key) && map_of(ds)[key] == ds[i].1,
    decreases ds.len(),
{
    if ds.len() > 0 && i < ds.len() - 1 {
        assert forall|j: int| i < j < ds.drop_last().len() implies (
        #[trigger] ds.drop_last()[j]).0 != key by {
            assert(ds.drop_last()[j] == ds[j]);
        }
        lemma_map_of_last(ds.drop_last(), key, i);
    }
}

/// A failure among the first `k` entries is the failure of all of them.
proof fn lemma_validation_prefix_failure(es: Seq<SysctlView>, m: Map<Seq<char>, Type>, k: int)
    requires
        0 <= k <= es.len(),
        validation(es.subrange(0, k), m) is Err,
    ensures
        validation(es, m) == validation(es.subrange(0, k), m),
    decreases es.len(),
{
    if k == es.len() {
        assert(es.subrange(0, k) =~= es);
    } else {
        assert(es.drop_last().subrange(0, k) =~= es.subrange(0, k));
        lemma_validation_prefix_failure(es.drop_last(), m, k);
    }
}

impl<'a> SchemaEntry<'a> {
    /// Parses a schema line `key : type` into a declaration.
    pub fn parse(line: &'a str) -> (r: Result<SchemaEntry<'a>, ConfError>)
        ensures
            match r {
                Ok(d) => parse_declaration(line@) == Ok::<_, ErrorView>(d@),
                Err(e) => parse_declaration(line@) == Err::<(Seq<char>, Type), _>(e@),
            },
    {
        let (variable, name) = match parse_line_pair(line, ':') {
            Ok(p) => p,
            Err(e) => return Err(e),
        };
        match Type::from_str(name) {
            Ok(ty) => Ok(SchemaEntry { variable, ty }),
            Err(e) => Err(e),
        }
    }
}

impl<'a> Schema<'a> {
    /// Parses a schema text: one declaration per definition line; blank and
    /// comment lines are passed over; the first malformed line fails the
    /// whole text.
    pub fn parse(content: &'a str) -> (r: Result<Schema<'a>, ConfError>)
        ensures
            match r {
                Ok(s) => parse_schema(content@) == Ok::<_, ErrorView>(s@),
                Err(e) => parse_schema(content@) == Err::<Map<Seq<char>, Type>, _>(e@),
            },
    {
        let c = chars_of(content);
        let ranges = line_ranges(&c);
        let ghost outs = schema_outcomes(content@);
        let mut entries: Vec<SchemaEntry<'a>> = Vec::new();
        let mut k: usize = 0;
        assert(outs.subrange(0, 0) =~= Seq::empty());
        assert(entries@.map_values(|e: SchemaEntry<'a>| e@) =~= Seq::empty());
        while k < ranges.len()
            invariant
                c@ == content@,
                outs == schema_outcomes(content@),
                ranges@.len() == split_lines(c@).len(),
                forall|j: int|
                    0 <= j < ranges@.len() ==> {
                        &&& (#[trigger] ranges@[j]).0 <= ranges@[j].1 <= c@.len()
                        &&& c@.subrange(ranges@[j].0 as int, ranges@[j].1 as int) == split_lines(
                            c@,
                        )[j]
                    },
                k <= ranges@.len(),
                collect(outs.subrange(0, k as int)) == Ok::<_, ErrorView>(
                    entries@.map_values(|e: SchemaEntry<'a>| e@),
                ),
            decreases ranges@.len() - k,
        {
            let (lo, hi) = ranges[k];
            let (a, b) = trim_range(&c, lo, hi);
            let line = content.substring_char(a, b);
            assert(outs.subrange(0, k + 1).drop_last() =~= outs.subrange(0, k as int));
            assert(outs[k as int] == schema_line(split_lines(c@)[k as int]));
            if is_definition_line(line) {
                match SchemaEntry::parse(line) {
                    Ok(d) => {
                        entries.push(d);
                        assert(entries@.map_values(|e: SchemaEntry<'a>| e@) =~= collect(
                            outs.subrange(0, k as int),
                        )->Ok_0.push(d@));
                    },
                    Err(e) => {
                        proof {
                            lemma_collect_prefix_failure(outs, k + 1);
                        }
                        return Err(e);
                    },
                }
            }
            k += 1;
        }
        assert(outs.subrange(0, k as int) =~= outs);
        Ok(Schema { entries })
    }

    /// The declared type of `key`, if the schema declares it.
    pub fn get(&self, key: &str) -> (r: Option<Type>)
        ensures
            r == (if self@.contains_key(key@) {
                Some(self@[key@])
            } else {
                None
            }),
    {
        let ghost ds = self.declarations();
        let mut i = self.entries.len();
        while i > 0
            invariant
                ds == self.declarations(),
                i <= ds.len(),
                forall|j: int| i <= j < ds.len() ==> (#[trigger] ds[j]).0 != key@,
            decreases i,
        {
            assert(ds[i - 1] == self.entries@[i - 1]@);
            if same_text(self.entries[i - 1].variable, key) {
                proof {
                    lemma_map_of_last(ds, key@, i - 1);
                }
                return Some(self.entries[i - 1].ty);
            }
            i -= 1;
        }
        proof {
            lemma_map_of_last(ds, key@, -1);
        }
        None
    }

    /// Holds each entry that is not exempt to the schema: its key must be
    /// declared, and the text of its value must parse as the declared type.
    /// The first entry that fails, in order, is the one reported.
    pub fn validate(&self, conf: SysctlConf) -> (r: Result<(), ConfError>)
        ensures
            match r {
                Ok(()) => validation(conf@, self@) == Ok::<(), ErrorView>(()),
                Err(e) => validation(conf@, self@) == Err::<(), _>(e@),
            },
    {
        let ghost es = conf@;
        let mut i: usize = 0;
        while i < conf.sysctls.len()
            invariant
                es == conf@,
                i <= es.len(),
                validation(es.subrange(0, i as int), self@) == Ok::<(), ErrorView>(()),
            decreases es.len() - i,
        {
            let sysctl = &conf.sysctls[i];
            assert(es[i as int] == sysctl@);
            assert(es.subrange(0, i + 1).drop_last() =~= es.subrange(0, i as int));
            if !sysctl.ignore_failure {
                match self.get(sysctl.variable) {
                    None => {
                        proof {
                            lemma_validation_prefix_failure(es, self@, i + 1);
                        }
                        return Err(ConfError::UndeclaredKey { key: sysctl.variable.to_owned() });
                    },
                    Some(ty) => {
                        let text = sysctl.value.to_string();
                        let checked = ty.validate(sysctl.variable, text.as_str());
                        if checked.is_err() {
                            proof {
                                lemma_validation_prefix_failure(es, self@, i + 1);
                            }
                            return checked;
                        }
                    },
                }
            }
            i += 1;
        }
        assert(es.subrange(0, i as int) =~= es);
        Ok(())
    }
}

/// Entries that all pass leave validation with nothing to report.
proof fn lemma_validation_all_pass(es: Seq<SysctlView>, m: Map<Seq<char>, Type>)
    requires
        forall|j: int| 0 <= j < es.len() ==> check_entry(#[trigger] es[j], m) is None,
    ensures
        validation(es, m) == Ok::<(), ErrorView>(()),
    decreases es.len(),
{
    if es.len() > 0 {
        assert forall|j: int| 0 <= j < es.drop_last().len() implies check_entry(
            #[trigger] es.drop_last()[j],
            m,
        ) is None by {
            assert(es.drop_last()[j] == es[j]);
        }
        lemma_validation_all_pass(es.drop_last(), m);
    }
}

/// Validation is fail-fast: where the entries before position `i` pass and
/// the entry at `i` fails, the failure of the entry at `i` is the one
/// reported, whatever the entries after it hold.
pub proof fn lemma_first_failure_reported(es: Seq<SysctlView>, m: Map<Seq<char>, Type>, i: int)
    requires
        0 <= i < es.len(),
        forall|j: int| 0 <= j < i ==> check_entry(#[trigger] es[j], m) is None,
        check_entry(es[i], m) is Some,
    ensures
        validation(es, m) == Err::<(), ErrorView>(check_entry(es[i], m)->0),
{
    let pre = es.subrange(0, i);
    assert forall|j: int| 0 <= j < pre.len() implies check_entry(#[trigger] pre[j], m) is None by {
        assert(pre[j] == es[j]);
    }
    lemma_validation_all_pass(pre, m);
    assert(es.subrange(0, i + 1).drop_last() =~= pre);
    lemma_validation_prefix_failure(es, m, i + 1);
}

/// Validation succeeds exactly when every entry passes its checks.
pub proof fn lemma_validation_ok(es: Seq<SysctlView>, m: Map<Seq<char>, Type>)
    ensures
        validation(es, m) is Ok <==> forall|j: int|
            0 <= j < es.len() ==> check_entry(#[trigger] es[j], m) is None,
    decreases es.len(),
{
    if es.len() > 0 {
        lemma_validation_ok(es.drop_last(), m);
        if validation(es.drop_last(), m) is Ok {
            assert forall|j: int| 0 <= j < es.drop_last().len() implies check_entry(
                #[trigger] es[j],
                m,
            ) is None by {
                assert(es.drop_last()[j] == es[j]);
            }
        } else {
            let j = choose|j: int|
                0 <= j < es.drop_last().len() && !(check_entry(
                    #[trigger] es.drop_last()[j],
                    m,
                ) is None);
            assert(es.drop_last()[j] == es[j]);
        }
    }
}

/// An entry marked to ignore failure bypasses both the declared-key check and
/// the type check: it never fails, and inserted anywhere among other entries
/// it leaves the outcome of validation as it was.
pub proof fn lemma_exempt_entry_bypasses(
    es: Seq<SysctlView>,
    m: Map<Seq<char>, Type>,
    e: SysctlView,
    i: int,
)
    requires
        e.ignore_failure,
        0 <= i <= es.len(),
    ensures
        check_entry(e, m) is None,
        validation(es.insert(i, e), m) == validation(es, m),
    decreases es.len(),
{
    let ins = es.insert(i, e);
    if i == es.len() {
        assert(ins.drop_last() =~= es);
    } else {
        assert(ins.drop_last() =~= es.drop_last().insert(i, e));
        assert(ins.last() == es.last());
        lemma_exempt_entry_bypasses(es.drop_last(), m, e, i);
    }
}

} // verus!
