//! The firmware's data dictionary and the registry compiled from it.
use vstd::prelude::*;
use vstd::string::StrSliceExecFns;
use vstd::string::StringExecFns;
use crate::command::Command;
use crate::command::CommandParseError;
use crate::command::DeclModel;
use crate::command::SchemaFault;
use crate::command::parse_decl;

verus! {

/// Declarations of the commands the firmware accepts, each with its id.
#[derive(Debug)]
pub struct CommandDefs(pub Vec<(String, u8)>);

/// Declarations of the responses the firmware sends, each with its id.
#[derive(Debug)]
pub struct ResponseDefs(pub Vec<(String, u8)>);

/// A variant of an enumeration: one value, or `count` values from `start`.
#[derive(Debug, Clone, Copy, PartialEq, Eq)]
pub enum EnumValue<T> {
    Static(T),
    Ranged(T, T),
}

/// The entries of one enumeration, in order: a name (or prefix) and its value.
#[derive(Debug)]
pub struct Variants(pub Vec<(String, EnumValue<u8>)>);

/// The data dictionary, as the firmware describes itself.
#[derive(Debug)]
pub struct Dictionary {
    pub build_versions: String,
    pub version: String,
    pub commands: CommandDefs,
    pub responses: ResponseDefs,
    pub enums: Vec<(String, Variants)>,
}

/// A compiled command or response definition.
#[derive(Debug)]
pub struct MessageDef {
    pub id: u8,
    pub command: Command,
}

/// An expanded enumeration: each variant name with its value.
#[derive(Debug)]
pub struct EnumDef {
    pub name: String,
    pub variants: Vec<(String, u8)>,
}

/// The registry compiled from a dictionary; it is not changed afterwards.
#[derive(Debug)]
pub struct Registry {
    pub commands: Vec<MessageDef>,
    pub responses: Vec<MessageDef>,
    pub enums: Vec<EnumDef>,
}

/// Declarations as text with their ids.
pub open spec fn defs_view(defs: Seq<(String, u8)>) -> Seq<(Seq<char>, u8)> {
    Seq::new(defs.len(), |i: int| (defs[i].0@, defs[i].1))
}

/// Compiled definitions as ids with what their declarations state.
pub open spec fn messages_view(ms: Seq<MessageDef>) -> Seq<(u8, DeclModel)> {
    Seq::new(ms.len(), |i: int| (ms[i].id, ms[i].command.model()))
}

/// Each declaration parsed in order; the first bad one decides the error.
pub open spec fn parse_defs(defs: Seq<(Seq<char>, u8)>) -> Result<Seq<(u8, DeclModel)>, SchemaFault>
    decreases defs.len(),
{
    if defs.len() == 0 {
        Ok(Seq::empty())
    } else {
        match parse_defs(defs.drop_last()) {
            Err(e) => Err(e),
            Ok(ms) => match parse_decl(defs.last().0) {
                Err(e) => Err(e),
                Ok(m) => Ok(ms.push((defs.last().1, m))),
            },
        }
    }
}

/// No two definitions share an id or a name.
pub open spec fn distinct_messages(ms: Seq<(u8, DeclModel)>) -> bool {
    forall|i: int, j: int|
        0 <= i < j < ms.len() ==> (#[trigger] ms[i]).0 != (#[trigger] ms[j]).0 && ms[i].1.name
            != ms[j].1.name
}

/// The definitions compiled from `defs`.
pub open spec fn compile_defs(defs: Seq<(Seq<char>, u8)>) -> Result<Seq<(u8, DeclModel)>, SchemaFault> {
    match parse_defs(defs) {
        Err(e) => Err(e),
        Ok(ms) => if distinct_messages(ms) {
            Ok(ms)
        } else {
            Err(SchemaFault::DuplicateDefinition)
        },
    }
}

/// Whether two of `ms` share an id or a name.
fn has_duplicate(ms: &Vec<MessageDef>) -> (r: bool)
    ensures
        r == !distinct_messages(messages_view(ms@)),
{
    let ghost v = messages_view(ms@);
    let mut i: usize = 0;
    while i < ms.len()
        invariant
            v == messages_view(ms@),
            i <= ms@.len(),
            forall|a: int, b: int|
                0 <= a < i && a < b < v.len() ==> (#[trigger] v[a]).0 != (#[trigger] v[b]).0
                    && v[a].1.name != v[b].1.name,
        decreases ms@.len() - i,
    {
        let mut j: usize = i + 1;
        while j < ms.len()
            invariant
                v == messages_view(ms@),
                i < ms@.len(),
                i + 1 <= j <= ms@.len(),
                forall|a: int, b: int|
                    0 <= a < i && a < b < v.len() ==> (#[trigger] v[a]).0 != (#[trigger] v[b]).0
                        && v[a].1.name != v[b].1.name,
                forall|b: int|
                    i < b < j ==> v[i as int].0 != (#[trigger] v[b]).0 && v[i as int].1.name
                        != v[b].1.name,
            decreases ms@.len() - j,
        {
            if ms[i].id == ms[j].id || ms[i].command.name == ms[j].command.name {
                assert(v[i as int].0 == v[j as int].0 || v[i as int].1.name == v[j as int].1.name);
                assert(!distinct_messages(v));
                return true;
            }
            j += 1;
        }
        i += 1;
    }
    false
}

/// Parses every declaration of `defs` and checks that names and ids are
/// distinct.
pub fn compile_messages(defs: &Vec<(String, u8)>) -> (r: Result<Vec<MessageDef>, CommandParseError>)
    ensures
        match compile_defs(defs_view(defs@)) {
            Ok(ms) => r matches Ok(out) && messages_view(out@) == ms,
            Err(e) => r matches Err(x) && x@ == e,
        },
{
    let ghost dv = defs_view(defs@);
    let mut out: Vec<MessageDef> = Vec::new();
    let mut i: usize = 0;
    assert(dv.take(0) =~= Seq::<(Seq<char>, u8)>::empty());
    assert(messages_view(out@) =~= Seq::<(u8, DeclModel)>::empty());
    while i < defs.len()
        invariant
            dv == defs_view(defs@),
            i <= defs@.len(),
            parse_defs(dv.take(i as int)) == Ok::<Seq<(u8, DeclModel)>, SchemaFault>(
                messages_view(out@),
            ),
        decreases defs@.len() - i,
    {
        assert(dv.take(i + 1).drop_last() =~= dv.take(i as int));
        assert(dv.take(i + 1).last() == (defs@[i as int].0@, defs@[i as int].1));
        match Command::from_str(defs[i].0.as_str()) {
            Ok(c) => {
                let ghost before = messages_view(out@);
                out.push(MessageDef { id: defs[i].1, command: c });
                assert(messages_view(out@) =~= before.push((defs@[i as int].1, out@.last().command.model())));
            },
            Err(e) => {
                proof {
                    lemma_parse_defs_error(dv, i + 1);
                }
                return Err(e);
            },
        }
        i += 1;
    }
    assert(dv.take(i as int) =~= dv);
    if has_duplicate(&out) {
        Err(CommandParseError::DuplicateDefinition)
    } else {
        Ok(out)
    }
}

/// An error among the first `k` declarations is the error of all of them.
proof fn lemma_parse_defs_error(defs: Seq<(Seq<char>, u8)>, k: int)
    requires
        0 <= k <= defs.len(),
        parse_defs(defs.take(k)) is Err,
    ensures
        parse_defs(defs) == parse_defs(defs.take(k)),
    decreases defs.len(),
{
    if defs.len() > k {
        assert(defs.drop_last().take(k) =~= defs.take(k));
        lemma_parse_defs_error(defs.drop_last(), k);
    } else {
        assert(defs.take(k) =~= defs);
    }
}

/// Whether `c` is an ASCII digit.
pub open spec fn is_digit(c: char) -> bool {
    '0' <= c <= '9'
}

/// The prefix that the names of a range of variants start with: the
/// declared name without one trailing digit, if it ends in one.
pub open spec fn range_prefix(p: Seq<char>) -> Seq<char> {
    if p.len() > 0 && is_digit(p.last()) {
        p.drop_last()
    } else {
        p
    }
}

/// The character of decimal digit `d`.
pub open spec fn digit_char(d: nat) -> char {
    if d == 0 {
        '0'
    } else if d == 1 {
        '1'
    } else if d == 2 {
        '2'
    } else if d == 3 {
        '3'
    } else if d == 4 {
        '4'
    } else if d == 5 {
        '5'
    } else if d == 6 {
        '6'
    } else if d == 7 {
        '7'
    } else if d == 8 {
        '8'
    } else {
        '9'
    }
}

/// `n` written in decimal, without leading zeros.
pub open spec fn decimal(n: nat) -> Seq<char>
    decreases n,
{
    if n < 10 {
        seq![digit_char(n)]
    } else {
        decimal(n / 10).push(digit_char(n % 10))
    }
}

/// The variants that one entry stands for. A range `(start, count)` gives
/// `count` variants, the i-th named by the range prefix followed by `i`,
/// with value `start + i`; its values must stay within a byte.
pub open spec fn expand_value(name: Seq<char>, v: EnumValue<u8>) -> Result<
    Seq<(Seq<char>, u8)>,
    SchemaFault,
> {
    match v {
        EnumValue::Static(x) => Ok(seq![(name, x)]),
        EnumValue::Ranged(start, count) => if start + count > 256 {
            Err(SchemaFault::RangeOverflow)
        } else {
            Ok(
                Seq::new(
                    count as nat,
                    |i: int| (range_prefix(name) + decimal(i as nat), (start + i) as u8),
                ),
            )
        },
    }
}

/// All entries expanded in order; the first bad entry decides the error.
pub open spec fn expand_variants(vs: Seq<(Seq<char>, EnumValue<u8>)>) -> Result<
    Seq<(Seq<char>, u8)>,
    SchemaFault,
>
    decreases vs.len(),
{
    if vs.len() == 0 {
        Ok(Seq::empty())
    } else {
        match expand_variants(vs.drop_last()) {
            Err(e) => Err(e),
            Ok(xs) => match expand_value(vs.last().0, vs.last().1) {
                Err(e) => Err(e),
                Ok(ys) => Ok(xs + ys),
            },
        }
    }
}

/// No two variants share a name or a value.
pub open spec fn distinct_variants(xs: Seq<(Seq<char>, u8)>) -> bool {
    forall|i: int, j: int|
        0 <= i < j < xs.len() ==> (#[trigger] xs[i]).0 != (#[trigger] xs[j]).0 && xs[i].1 != xs[j].1
}

/// The expanded variants of one enumeration.
pub open spec fn compile_enum(vs: Seq<(Seq<char>, EnumValue<u8>)>) -> Result<
    Seq<(Seq<char>, u8)>,
    SchemaFault,
> {
    match expand_variants(vs) {
        Err(e) => Err(e),
        Ok(xs) => if distinct_variants(xs) {
            Ok(xs)
        } else {
            Err(SchemaFault::DuplicateDefinition)
        },
    }
}

/// Variants as text with their values.
pub open spec fn variants_view(vs: Seq<(String, u8)>) -> Seq<(Seq<char>, u8)> {
    Seq::new(vs.len(), |i: int| (vs[i].0@, vs[i].1))
}

/// Declared entries as text with their values.
pub open spec fn entries_view(vs: Seq<(String, EnumValue<u8>)>) -> Seq<(Seq<char>, EnumValue<u8>)> {
    Seq::new(vs.len(), |i: int| (vs[i].0@, vs[i].1))
}

/// The text of decimal digit `d`.
pub(crate) fn digit_text(d: u8) -> (r: &'static str)
    requires
        d < 10,
    ensures
        r@ == seq![digit_char(d as nat)],
{
    proof {
        reveal_strlit("0");
        reveal_strlit("1");
        reveal_strlit("2");
        reveal_strlit("3");
        reveal_strlit("4");
        reveal_strlit("5");
        reveal_strlit("6");
        reveal_strlit("7");
        reveal_strlit("8");
        reveal_strlit("9");
    }
    if d == 0 {
        "0"
    } else if d == 1 {
        "1"
    } else if d == 2 {
        "2"
    } else if d == 3 {
        "3"
    } else if d == 4 {
        "4"
    } else if d == 5 {
        "5"
    } else if d == 6 {
        "6"
    } else if d == 7 {
        "7"
    } else if d == 8 {
        "8"
    } else {
        "9"
    }
}

/// `n` in decimal.
pub(crate) fn decimal_text(n: u8) -> (r: String)
    ensures
        r@ == decimal(n as nat),
{
    if n >= 100 {
        let r = String::from_str(digit_text(n / 100)).concat(digit_text((n / 10) % 10)).concat(
            digit_text(n % 10),
        );
        assert((n / 10) / 10 == n / 100);
        assert(decimal((n / 100) as nat) == seq![digit_char((n / 100) as nat)]);
        assert(decimal((n / 10) as nat) =~= seq![digit_char((n / 100) as nat)].push(
            digit_char(((n / 10) % 10) as nat),
        ));
        assert(r@ =~= decimal(n as nat));
        r
    } else if n >= 10 {
        let r = String::from_str(digit_text(n / 10)).concat(digit_text(n % 10));
        assert(decimal((n / 10) as nat) == seq![digit_char((n / 10) as nat)]);
        assert(r@ =~= decimal(n as nat));
        r
    } else {
        String::from_str(digit_text(n))
    }
}

/// `n` in decimal.
pub(crate) fn decimal_u32_text(n: u32) -> (r: String)
    ensures
        r@ == decimal(n as nat),
    decreases n,
{
    if n < 10 {
        String::from_str(digit_text(n as u8))
    } else {
        let r = decimal_u32_text(n / 10).concat(digit_text((n % 10) as u8));
        assert(r@ =~= decimal(n as nat));
        r
    }
}

/// The prefix of a range of variants named `name`.
fn range_prefix_text(name: &String) -> (r: String)
    ensures
        r@ == range_prefix(name@),
{
    let s = name.as_str();
    let n = s.unicode_len();
    if n > 0 {
        let c = s.get_char(n - 1);
        if '0' <= c && c <= '9' {
            return s.substring_char(0, n - 1).to_owned();
        }
    }
    name.clone()
}

/// Appends the variants that the entry `name` with value `v` stands for.
fn expand_entry(name: &String, v: EnumValue<u8>, out: &mut Vec<(String, u8)>) -> (r: Result<
    (),
    CommandParseError,
>)
    ensures
        match expand_value(name@, v) {
            Ok(xs) => r is Ok && variants_view(final(out)@) == variants_view(old(out)@) + xs,
            Err(e) => r matches Err(x) && x@ == e,
        },
{
    let ghost start = variants_view(out@);
    match v {
        EnumValue::Static(x) => {
            out.push((name.clone(), x));
            assert(variants_view(out@) =~= start + seq![(name@, x)]);
            Ok(())
        },
        EnumValue::Ranged(first, count) => {
            if first as u16 + count as u16 > 256 {
                return Err(CommandParseError::RangeOverflow);
            }
            let prefix = range_prefix_text(name);
            let ghost xs = Seq::new(
                count as nat,
                |i: int| (range_prefix(name@) + decimal(i as nat), (first + i) as u8),
            );
            let mut i: u8 = 0;
            while i < count
                invariant
                    first + count <= 256,
                    i <= count,
                    prefix@ == range_prefix(name@),
                    xs == Seq::new(
                        count as nat,
                        |i: int| (range_prefix(name@) + decimal(i as nat), (first + i) as u8),
                    ),
                    variants_view(out@) == start + xs.take(i as int),
                decreases count - i,
            {
                let label = prefix.clone().concat(decimal_text(i).as_str());
                let ghost before = variants_view(out@);
                out.push((label, first + i));
                assert(variants_view(out@) =~= before.push(xs[i as int]));
                assert(xs.take(i + 1) =~= xs.take(i as int).push(xs[i as int]));
                i += 1;
            }
            assert(xs.take(i as int) =~= xs);
            Ok(())
        },
    }
}

/// Whether two of `xs` share a name or a value.
fn has_duplicate_variant(xs: &Vec<(String, u8)>) -> (r: bool)
    ensures
        r == !distinct_variants(variants_view(xs@)),
{
    let ghost v = variants_view(xs@);
    let mut i: usize = 0;
    while i < xs.len()
        invariant
            v == variants_view(xs@),
            i <= xs@.len(),
            forall|a: int, b: int|
                0 <= a < i && a < b < v.len() ==> (#[trigger] v[a]).0 != (#[trigger] v[b]).0
                    && v[a].1 != v[b].1,
        decreases xs@.len() - i,
    {
        let mut j: usize = i + 1;
        while j < xs.len()
            invariant
                v == variants_view(xs@),
                i < xs@.len(),
                i + 1 <= j <= xs@.len(),
                forall|a: int, b: int|
                    0 <= a < i && a < b < v.len() ==> (#[trigger] v[a]).0 != (#[trigger] v[b]).0
                        && v[a].1 != v[b].1,
                forall|b: int|
                    i < b < j ==> v[i as int].0 != (#[trigger] v[b]).0 && v[i as int].1 != v[b].1,
            decreases xs@.len() - j,
        {
            if xs[i].0 == xs[j].0 || xs[i].1 == xs[j].1 {
                assert(v[i as int].0 == v[j as int].0 || v[i as int].1 == v[j as int].1);
                assert(!distinct_variants(v));
                return true;
            }
            j += 1;
        }
        i += 1;
    }
    false
}

/// Expands the entries of one enumeration and checks that names and values
/// are distinct.
pub fn compile_variants(vs: &Variants) -> (r: Result<Vec<(String, u8)>, CommandParseError>)
    ensures
        match compile_enum(entries_view(vs.0@)) {
            Ok(xs) => r matches Ok(out) && variants_view(out@) == xs,
            Err(e) => r matches Err(x) && x@ == e,
        },
{
    let ghost ev = entries_view(vs.0@);
    let mut out: Vec<(String, u8)> = Vec::new();
    let mut i: usize = 0;
    assert(ev.take(0) =~= Seq::<(Seq<char>, EnumValue<u8>)>::empty());
    assert(variants_view(out@) =~= Seq::<(Seq<char>, u8)>::empty());
    while i < vs.0.len()
        invariant
            ev == entries_view(vs.0@),
            i <= vs.0@.len(),
            expand_variants(ev.take(i as int)) == Ok::<Seq<(Seq<char>, u8)>, SchemaFault>(
                variants_view(out@),
            ),
        decreases vs.0@.len() - i,
    {
        assert(ev.take(i + 1).drop_last() =~= ev.take(i as int));
        assert(ev.take(i + 1).last() == (vs.0@[i as int].0@, vs.0@[i as int].1));
        match expand_entry(&vs.0[i].0, vs.0[i].1, &mut out) {
            Ok(()) => {},
            Err(e) => {
                proof {
                    lemma_expand_error(ev, i + 1);
                }
                return Err(e);
            },
        }
        i += 1;
    }
    assert(ev.take(i as int) =~= ev);
    if has_duplicate_variant(&out) {
        Err(CommandParseError::DuplicateDefinition)
    } else {
        Ok(out)
    }
}

/// An error among the first `k` entries is the error of all of them.
proof fn lemma_expand_error(vs: Seq<(Seq<char>, EnumValue<u8>)>, k: int)
    requires
        0 <= k <= vs.len(),
        expand_variants(vs.take(k)) is Err,
    ensures
        expand_variants(vs) == expand_variants(vs.take(k)),
    decreases vs.len(),
{
    if vs.len() > k {
        assert(vs.drop_last().take(k) =~= vs.take(k));
        lemma_expand_error(vs.drop_last(), k);
    } else {
        assert(vs.take(k) =~= vs);
    }
}

/// What a registry holds: commands and responses by id with what their
/// declarations state, and each enumeration's expanded variants.
pub struct RegistryModel {
    pub commands: Seq<(u8, DeclModel)>,
    pub responses: Seq<(u8, DeclModel)>,
    pub enums: Seq<(Seq<char>, Seq<(Seq<char>, u8)>)>,
}

/// Declared enumerations as text.
pub open spec fn enums_view(es: Seq<(String, Variants)>) -> Seq<
    (Seq<char>, Seq<(Seq<char>, EnumValue<u8>)>),
> {
    Seq::new(es.len(), |i: int| (es[i].0@, entries_view(es[i].1.0@)))
}

/// Expanded enumerations as text.
pub open spec fn enum_defs_view(es: Seq<EnumDef>) -> Seq<(Seq<char>, Seq<(Seq<char>, u8)>)> {
    Seq::new(es.len(), |i: int| (es[i].name@, variants_view(es[i].variants@)))
}

/// Every enumeration expanded in order; the first bad one decides the error.
pub open spec fn compile_enums(es: Seq<(Seq<char>, Seq<(Seq<char>, EnumValue<u8>)>)>) -> Result<
    Seq<(Seq<char>, Seq<(Seq<char>, u8)>)>,
    SchemaFault,
>
    decreases es.len(),
{
    if es.len() == 0 {
        Ok(Seq::empty())
    } else {
        match compile_enums(es.drop_last()) {
            Err(e) => Err(e),
            Ok(xs) => match compile_enum(es.last().1) {
                Err(e) => Err(e),
                Ok(vs) => Ok(xs.push((es.last().0, vs))),
            },
        }
    }
}

/// The registry that a dictionary compiles to: commands first, then
/// responses, then enumerations; the first failure decides the error.
pub open spec fn compile_dictionary(d: Dictionary) -> Result<RegistryModel, SchemaFault> {
    match compile_defs(defs_view(d.commands.0@)) {
        Err(e) => Err(e),
        Ok(cs) => match compile_defs(defs_view(d.responses.0@)) {
            Err(e) => Err(e),
            Ok(rs) => match compile_enums(enums_view(d.enums@)) {
                Err(e) => Err(e),
                Ok(es) => Ok(RegistryModel { commands: cs, responses: rs, enums: es }),
            },
        },
    }
}

/// Expands every enumeration of `es`.
fn compile_enum_list(es: &Vec<(String, Variants)>) -> (r: Result<Vec<EnumDef>, CommandParseError>)
    ensures
        match compile_enums(enums_view(es@)) {
            Ok(xs) => r matches Ok(out) && enum_defs_view(out@) == xs,
            Err(e) => r matches Err(x) && x@ == e,
        },
{
    let ghost ev = enums_view(es@);
    let mut out: Vec<EnumDef> = Vec::new();
    let mut i: usize = 0;
    assert(ev.take(0) =~= Seq::<(Seq<char>, Seq<(Seq<char>, EnumValue<u8>)>)>::empty());
    assert(enum_defs_view(out@) =~= Seq::<(Seq<char>, Seq<(Seq<char>, u8)>)>::empty());
    while i < es.len()
        invariant
            ev == enums_view(es@),
            i <= es@.len(),
            compile_enums(ev.take(i as int)) == Ok::<
                Seq<(Seq<char>, Seq<(Seq<char>, u8)>)>,
                SchemaFault,
            >(enum_defs_view(out@)),
        decreases es@.len() - i,
    {
        assert(ev.take(i + 1).drop_last() =~= ev.take(i as int));
        assert(ev.take(i + 1).last() == (es@[i as int].0@, entries_view(es@[i as int].1.0@)));
        match compile_variants(&es[i].1) {
            Ok(vs) => {
                let ghost before = enum_defs_view(out@);
                out.push(EnumDef { name: es[i].0.clone(), variants: vs });
                assert(enum_defs_view(out@) =~= before.push(
                    (es@[i as int].0@, variants_view(out@.last().variants@)),
                ));
            },
            Err(e) => {
                proof {
                    lemma_enums_error(ev, i + 1);
                }
                return Err(e);
            },
        }
        i += 1;
    }
    assert(ev.take(i as int) =~= ev);
    Ok(out)
}

/// An error among the first `k` enumerations is the error of all of them.
proof fn lemma_enums_error(es: Seq<(Seq<char>, Seq<(Seq<char>, EnumValue<u8>)>)>, k: int)
    requires
        0 <= k <= es.len(),
        compile_enums(es.take(k)) is Err,
    ensures
        compile_enums(es) == compile_enums(es.take(k)),
    decreases es.len(),
{
    if es.len() > k {
        assert(es.drop_last().take(k) =~= es.take(k));
        lemma_enums_error(es.drop_last(), k);
    } else {
        assert(es.take(k) =~= es);
    }
}

/// Position of the first definition in `ms` with id `id`.
fn position_of_id(ms: &Vec<MessageDef>, id: u8) -> (r: Option<usize>)
    ensures
        r is None <==> forall|i: int| 0 <= i < ms@.len() ==> (#[trigger] ms@[i]).id != id,
        r matches Some(k) ==> k < ms@.len() && ms@[k as int].id == id,
{
    let mut i: usize = 0;
    while i < ms.len()
        invariant
            i <= ms@.len(),
            forall|j: int| 0 <= j < i ==> (#[trigger] ms@[j]).id != id,
        decreases ms@.len() - i,
    {
        if ms[i].id == id {
            return Some(i);
        }
        i += 1;
    }
    None
}

impl Registry {
    /// What this registry holds.
    pub open spec fn model(&self) -> RegistryModel {
        RegistryModel {
            commands: messages_view(self.commands@),
            responses: messages_view(self.responses@),
            enums: enum_defs_view(self.enums@),
        }
    }

    /// Commands, and responses, have distinct ids and names.
    pub open spec fn wf(&self) -> bool {
        &&& distinct_messages(messages_view(self.commands@))
        &&& distinct_messages(messages_view(self.responses@))
    }

    /// Whether the registry is well formed.
    pub fn is_well_formed(&self) -> (r: bool)
        ensures
            r == self.wf(),
    {
        !has_duplicate(&self.commands) && !has_duplicate(&self.responses)
    }

    /// Compiles a dictionary.
    pub fn compile(dict: &Dictionary) -> (r: Result<Registry, CommandParseError>)
        ensures
            match compile_dictionary(*dict) {
                Ok(m) => r matches Ok(reg) && reg.model() == m && reg.wf(),
                Err(e) => r matches Err(x) && x@ == e,
            },
    {
        let commands = match compile_messages(&dict.commands.0) {
            Ok(cs) => cs,
            Err(e) => {
                return Err(e);
            },
        };
        let responses = match compile_messages(&dict.responses.0) {
            Ok(rs) => rs,
            Err(e) => {
                return Err(e);
            },
        };
        let enums = match compile_enum_list(&dict.enums) {
            Ok(es) => es,
            Err(e) => {
                return Err(e);
            },
        };
        Ok(Registry { commands, responses, enums })
    }

    /// The command named `name`.
    pub fn lookup_command(&self, name: &str) -> (r: Option<&MessageDef>)
        ensures
            r is None <==> forall|i: int|
                0 <= i < self.commands@.len() ==> (#[trigger] self.commands@[i]).command.name@
                    != name@,
            r matches Some(d) ==> d.command.name@ == name@ && exists|i: int|
                0 <= i < self.commands@.len() && self.commands@[i] == *d,
    {
        let key = name.to_owned();
        let mut i: usize = 0;
        while i < self.commands.len()
            invariant
                key@ == name@,
                i <= self.commands@.len(),
                forall|j: int| 0 <= j < i ==> (#[trigger] self.commands@[j]).command.name@ != name@,
            decreases self.commands@.len() - i,
        {
            if self.commands[i].command.name == key {
                return Some(&self.commands[i]);
            }
            i += 1;
        }
        None
    }

    /// The command with id `id`.
    pub fn lookup_command_by_id(&self, id: u8) -> (r: Result<&MessageDef, CommandParseError>)
        ensures
            r is Err <==> forall|i: int| 0 <= i < self.commands@.len() ==> (#[trigger] self.commands@[i]).id != id,
            r matches Err(e) ==> e@ == SchemaFault::NoSuchId(id),
            r matches Ok(d) ==> d.id == id && exists|i: int|
                0 <= i < self.commands@.len() && self.commands@[i] == *d,
    {
        match position_of_id(&self.commands, id) {
            Some(k) => Ok(&self.commands[k]),
            None => Err(CommandParseError::NoSuchId(id)),
        }
    }

    /// The response with id `id`.
    pub fn lookup_response_by_id(&self, id: u8) -> (r: Result<&MessageDef, CommandParseError>)
        ensures
            r is Err <==> forall|i: int| 0 <= i < self.responses@.len() ==> (#[trigger] self.responses@[i]).id != id,
            r matches Err(e) ==> e@ == SchemaFault::NoSuchId(id),
            r matches Ok(d) ==> d.id == id && exists|i: int|
                0 <= i < self.responses@.len() && self.responses@[i] == *d,
    {
        match position_of_id(&self.responses, id) {
            Some(k) => Ok(&self.responses[k]),
            None => Err(CommandParseError::NoSuchId(id)),
        }
    }
}

} // verus!
