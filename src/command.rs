//! Command and response declarations: `"name field=%token ..."`.
use vstd::prelude::*;
use vstd::string::StrSliceExecFns;
use indexmap::IndexMap;

verus! {

/// The insertion-ordered map of the `indexmap` crate, held opaque; what a
/// field map holds is `field_entries`.
#[verifier::external_type_specification]
#[verifier::external_body]
#[verifier::reject_recursive_types(K)]
#[verifier::reject_recursive_types(V)]
#[verifier::reject_recursive_types(S)]
pub struct ExIndexMap<K, V, S>(IndexMap<K, V, S>);

/// Wire type of one field, named by its scanf-style token.
#[derive(PartialEq, Eq, Clone, Copy, Debug, Structural)]
pub enum EnumType {
    /// `%c`
    U8,
    /// `%hu`
    U16,
    /// `%u`
    U32,
    /// `%hi`
    I16,
    /// `%i`
    I32,
    /// `%s`, `%*s` or `%.*s`: a length followed by that many bytes.
    Bytes,
}

/// The field type that a scanf token names.
pub type ScanfToken = EnumType;

/// The entries of a field map, in their order: field name and type.
pub uninterp spec fn field_entries(m: IndexMap<String, EnumType>) -> Seq<(Seq<char>, EnumType)>;

/// Whether `c` has the Unicode White_Space property.
pub uninterp spec fn white_space(c: char) -> bool;

/// Relies on `char::is_whitespace`, which tests the White_Space property.
#[verifier::external_body]
fn is_white_space(c: char) -> (r: bool)
    ensures
        r == white_space(c),
{
    c.is_whitespace()
}

/// Relies on `IndexMap::new`: a new map has no entries.
#[verifier::external_body]
fn new_field_map() -> (m: IndexMap<String, EnumType>)
    ensures
        field_entries(m) == Seq::<(Seq<char>, EnumType)>::empty(),
{
    IndexMap::new()
}

/// Index of the last entry with key `k`, or -1.
pub open spec fn key_position(es: Seq<(Seq<char>, EnumType)>, k: Seq<char>) -> int
    decreases es.len(),
{
    if es.len() == 0 {
        -1
    } else if es.last().0 == k {
        es.len() - 1
    } else {
        key_position(es.drop_last(), k)
    }
}

/// The entries after inserting `(k, v)`: a present key keeps its place and
/// takes the new type; a new key goes last.
pub open spec fn entries_insert(es: Seq<(Seq<char>, EnumType)>, k: Seq<char>, v: EnumType) -> Seq<
    (Seq<char>, EnumType),
> {
    let p = key_position(es, k);
    if p >= 0 {
        es.update(p, (k, v))
    } else {
        es.push((k, v))
    }
}

/// Relies on `IndexMap::insert`: an equal key keeps its position and gets
/// the new value; otherwise the pair is appended.
#[verifier::external_body]
fn insert_field(m: &mut IndexMap<String, EnumType>, k: String, v: EnumType)
    ensures
        field_entries(*final(m)) == entries_insert(field_entries(*old(m)), k@, v),
{
    m.insert(k, v);
}

/// Relies on `IndexMap::len`: the number of entries.
#[verifier::external_body]
pub(crate) fn field_count(m: &IndexMap<String, EnumType>) -> (r: usize)
    ensures
        r == field_entries(*m).len(),
{
    m.len()
}

/// Relies on `IndexMap::get_index`: the entry at position `i`, if any.
#[verifier::external_body]
pub(crate) fn field_at(m: &IndexMap<String, EnumType>, i: usize) -> (r: Option<(&String, &EnumType)>)
    ensures
        r is Some <==> i < field_entries(*m).len(),
        r matches Some((k, v)) ==> k@ == field_entries(*m)[i as int].0 && *v == field_entries(
            *m,
        )[i as int].1,
{
    m.get_index(i)
}

/// The field type that token `t` names.
pub open spec fn scanf_type(t: Seq<char>) -> Option<EnumType> {
    if t == seq!['%', 'c'] {
        Some(EnumType::U8)
    } else if t == seq!['%', 'h', 'u'] {
        Some(EnumType::U16)
    } else if t == seq!['%', 'u'] {
        Some(EnumType::U32)
    } else if t == seq!['%', 'h', 'i'] {
        Some(EnumType::I16)
    } else if t == seq!['%', 'i'] {
        Some(EnumType::I32)
    } else if t == seq!['%', 's'] || t == seq!['%', '*', 's'] || t == seq!['%', '.', '*', 's'] {
        Some(EnumType::Bytes)
    } else {
        None
    }
}

/// Whether `cs[lo..hi]` spells `lit`.
fn span_is(cs: &Vec<char>, lo: usize, hi: usize, lit: &[char]) -> (r: bool)
    requires
        lo <= hi <= cs@.len(),
    ensures
        r == (cs@.subrange(lo as int, hi as int) == lit@),
{
    if hi - lo != lit.len() {
        return false;
    }
    let mut i: usize = 0;
    while i < lit.len()
        invariant
            hi - lo == lit@.len(),
            lo <= hi <= cs@.len(),
            i <= lit@.len(),
            forall|j: int| 0 <= j < i ==> cs@[lo + j] == lit@[j],
        decreases lit@.len() - i,
    {
        if cs[lo + i] != lit[i] {
            assert(cs@.subrange(lo as int, hi as int)[i as int] != lit@[i as int]);
            return false;
        }
        i += 1;
    }
    assert(cs@.subrange(lo as int, hi as int) =~= lit@);
    true
}

impl EnumType {
    /// The field type that the scanf token `token` names, if any.
    pub fn from_scanf(token: &str) -> (r: Option<EnumType>)
        ensures
            r == scanf_type(token@),
    {
        let cs = chars_of(token);
        assert(cs@.subrange(0, cs@.len() as int) =~= cs@);
        scanf_type_at(&cs, 0, cs.len())
    }
}

/// The field type that the token `cs[lo..hi]` names.
fn scanf_type_at(cs: &Vec<char>, lo: usize, hi: usize) -> (r: Option<EnumType>)
    requires
        lo <= hi <= cs@.len(),
    ensures
        r == scanf_type(cs@.subrange(lo as int, hi as int)),
{
    if span_is(cs, lo, hi, &['%', 'c']) {
        Some(EnumType::U8)
    } else if span_is(cs, lo, hi, &['%', 'h', 'u']) {
        Some(EnumType::U16)
    } else if span_is(cs, lo, hi, &['%', 'u']) {
        Some(EnumType::U32)
    } else if span_is(cs, lo, hi, &['%', 'h', 'i']) {
        Some(EnumType::I16)
    } else if span_is(cs, lo, hi, &['%', 'i']) {
        Some(EnumType::I32)
    } else if span_is(cs, lo, hi, &['%', 's']) || span_is(cs, lo, hi, &['%', '*', 's'])
        || span_is(cs, lo, hi, &['%', '.', '*', 's']) {
        Some(EnumType::Bytes)
    } else {
        None
    }
}

/// The characters of `s`.
fn chars_of(s: &str) -> (r: Vec<char>)
    ensures
        r@ == s@,
{
    let n = s.unicode_len();
    let mut out: Vec<char> = Vec::new();
    let mut i: usize = 0;
    while i < n
        invariant
            n == s@.len(),
            i <= n,
            out@ == s@.take(i as int),
        decreases n - i,
    {
        out.push(s.get_char(i));
        i += 1;
        assert(out@ =~= s@.take(i as int));
    }
    assert(out@ =~= s@);
    out
}

/// The whitespace-separated words of `s`, in order.
pub open spec fn words(s: Seq<char>) -> Seq<Seq<char>>
    decreases s.len(),
{
    if s.len() == 0 {
        Seq::empty()
    } else {
        let w = words(s.drop_last());
        let c = s.last();
        if white_space(c) {
            w
        } else if s.len() >= 2 && !white_space(s[s.len() - 2]) {
            w.drop_last().push(w.last().push(c))
        } else {
            w.push(seq![c])
        }
    }
}

/// The text of each span of `cs`.
pub open spec fn span_texts(cs: Seq<char>, spans: Seq<(usize, usize)>) -> Seq<Seq<char>> {
    Seq::new(spans.len(), |i: int| cs.subrange(spans[i].0 as int, spans[i].1 as int))
}

/// Start and end of each whitespace-separated word of `cs`.
fn word_spans(cs: &Vec<char>) -> (r: Vec<(usize, usize)>)
    ensures
        span_texts(cs@, r@) == words(cs@),
        forall|i: int| 0 <= i < r@.len() ==> (#[trigger] r@[i]).0 <= r@[i].1 <= cs@.len(),
{
    let n = cs.len();
    let mut spans: Vec<(usize, usize)> = Vec::new();
    let mut in_word = false;
    let mut start: usize = 0;
    let mut i: usize = 0;
    while i < n
        invariant
            n == cs@.len(),
            i <= n,
            in_word ==> start < i && !white_space(cs@[i - 1]),
            !in_word ==> (i == 0 || white_space(cs@[i - 1])),
            forall|j: int| 0 <= j < spans@.len() ==> (#[trigger] spans@[j]).0 <= spans@[j].1 <= i,
            words(cs@.take(i as int)) == span_texts(cs@, spans@) + if in_word {
                seq![cs@.subrange(start as int, i as int)]
            } else {
                Seq::empty()
            },
        decreases n - i,
    {
        let c = cs[i];
        let ghost prev = cs@.take(i as int);
        let ghost before = span_texts(cs@, spans@);
        assert(cs@.take(i + 1).drop_last() =~= prev);
        if is_white_space(c) {
            if in_word {
                spans.push((start, i));
                assert(span_texts(cs@, spans@) =~= before.push(cs@.subrange(start as int, i as int)));
                in_word = false;
            }
        } else if in_word {
            assert(cs@.subrange(start as int, i + 1) =~= cs@.subrange(start as int, i as int).push(c));
        } else {
            start = i;
            in_word = true;
            assert(cs@.subrange(start as int, i + 1) =~= seq![c]);
        }
        i += 1;
    }
    if in_word {
        let ghost before = span_texts(cs@, spans@);
        spans.push((start, n));
        assert(span_texts(cs@, spans@) =~= before.push(cs@.subrange(start as int, n as int)));
    }
    assert(cs@.take(n as int) =~= cs@);
    spans
}

/// Why a declaration or a dictionary was rejected.
#[derive(Debug, Clone, PartialEq, Eq)]
pub enum CommandParseError {
    /// A declaration has no name, or an argument has no field name.
    MissingIdent,
    /// An argument has no `=` or nothing after it.
    MissingScanf,
    /// An argument's token is not one of the known scanf tokens.
    InvalidLiteral { what: String },
    /// Two definitions share a name or a number.
    DuplicateDefinition,
    /// A range of enumeration values runs past 255.
    RangeOverflow,
    /// No definition has this id.
    NoSuchId(u8),
}

/// `CommandParseError` with its text as characters.
pub enum SchemaFault {
    MissingIdent,
    MissingScanf,
    InvalidLiteral(Seq<char>),
    DuplicateDefinition,
    RangeOverflow,
    NoSuchId(u8),
}

impl View for CommandParseError {
    type V = SchemaFault;

    open spec fn view(&self) -> SchemaFault {
        match self {
            CommandParseError::MissingIdent => SchemaFault::MissingIdent,
            CommandParseError::MissingScanf => SchemaFault::MissingScanf,
            CommandParseError::InvalidLiteral { what } => SchemaFault::InvalidLiteral(what@),
            CommandParseError::DuplicateDefinition => SchemaFault::DuplicateDefinition,
            CommandParseError::RangeOverflow => SchemaFault::RangeOverflow,
            CommandParseError::NoSuchId(id) => SchemaFault::NoSuchId(*id),
        }
    }
}

/// A parsed declaration.
#[derive(Debug)]
pub struct Command {
    /// Name of the command or response.
    pub name: String,
    /// The declaration it was parsed from.
    pub def: String,
    /// Field names and their wire types, in wire order.
    pub fields: IndexMap<String, EnumType>,
}

/// What a declaration states: its name and its fields in wire order.
pub struct DeclModel {
    pub name: Seq<char>,
    pub fields: Seq<(Seq<char>, EnumType)>,
}

impl Command {
    /// What this command states.
    pub open spec fn model(&self) -> DeclModel {
        DeclModel { name: self.name@, fields: field_entries(self.fields) }
    }
}

/// Index of the first `c` in `t`.
pub open spec fn first_index_of(t: Seq<char>, c: char) -> Option<int>
    decreases t.len(),
{
    if t.len() == 0 {
        None
    } else {
        match first_index_of(t.drop_last(), c) {
            Some(i) => Some(i),
            None => if t.last() == c {
                Some(t.len() - 1)
            } else {
                None
            },
        }
    }
}

/// One `field=%token` argument.
pub open spec fn parse_arg(t: Seq<char>) -> Result<(Seq<char>, EnumType), SchemaFault> {
    match first_index_of(t, '=') {
        None => Err(SchemaFault::MissingScanf),
        Some(p) => if p == 0 {
            Err(SchemaFault::MissingIdent)
        } else if p + 1 == t.len() {
            Err(SchemaFault::MissingScanf)
        } else {
            match scanf_type(t.skip(p + 1)) {
                Some(ty) => Ok((t.take(p), ty)),
                None => Err(SchemaFault::InvalidLiteral(t.skip(p + 1))),
            }
        },
    }
}

/// The arguments in order, each later field inserted into the entries of
/// the earlier ones; the first bad argument decides the error.
pub open spec fn parse_args(args: Seq<Seq<char>>) -> Result<Seq<(Seq<char>, EnumType)>, SchemaFault>
    decreases args.len(),
{
    if args.len() == 0 {
        Ok(Seq::empty())
    } else {
        match parse_args(args.drop_last()) {
            Err(e) => Err(e),
            Ok(fs) => match parse_arg(args.last()) {
                Err(e) => Err(e),
                Ok((k, ty)) => Ok(entries_insert(fs, k, ty)),
            },
        }
    }
}

/// A declaration: its first word is the name, the others its arguments.
pub open spec fn parse_decl(s: Seq<char>) -> Result<DeclModel, SchemaFault> {
    let ws = words(s);
    if ws.len() == 0 {
        Err(SchemaFault::MissingIdent)
    } else {
        match parse_args(ws.skip(1)) {
            Ok(fs) => Ok(DeclModel { name: ws[0], fields: fs }),
            Err(e) => Err(e),
        }
    }
}

/// Position of the first `=` in `cs[lo..hi]`.
fn find_eq(cs: &Vec<char>, lo: usize, hi: usize) -> (r: Option<usize>)
    requires
        lo <= hi <= cs@.len(),
    ensures
        match first_index_of(cs@.subrange(lo as int, hi as int), '=') {
            Some(p) => r matches Some(q) && q == lo + p,
            None => r is None,
        },
        r matches Some(q) ==> lo <= q < hi,
{
    let mut j: usize = lo;
    assert(cs@.subrange(lo as int, lo as int) =~= Seq::<char>::empty());
    while j < hi
        invariant
            lo <= j <= hi <= cs@.len(),
            first_index_of(cs@.subrange(lo as int, j as int), '=') is None,
        decreases hi - j,
    {
        assert(cs@.subrange(lo as int, j + 1).drop_last() =~= cs@.subrange(lo as int, j as int));
        if cs[j] == '=' {
            proof {
                assert(cs@.subrange(lo as int, hi as int).take(j - lo + 1) =~= cs@.subrange(
                    lo as int,
                    j + 1,
                ));
                lemma_first_index_prefix(cs@.subrange(lo as int, hi as int), '=', j - lo);
            }
            return Some(j);
        }
        j += 1;
    }
    None
}

/// A match in a prefix is the first match of the whole sequence.
proof fn lemma_first_index_prefix(t: Seq<char>, c: char, k: int)
    requires
        0 <= k < t.len(),
        first_index_of(t.take(k + 1), c) == Some(k),
    ensures
        first_index_of(t, c) == Some(k),
    decreases t.len(),
{
    if t.len() > k + 1 {
        assert(t.drop_last().take(k + 1) =~= t.take(k + 1));
        lemma_first_index_prefix(t.drop_last(), c, k);
    } else {
        assert(t.take(k + 1) =~= t);
    }
}

/// The text of `cs[lo..hi]`, taken from `s`, whose characters `cs` are.
fn text_of(s: &str, cs: &Vec<char>, lo: usize, hi: usize) -> (r: String)
    requires
        cs@ == s@,
        lo <= hi <= cs@.len(),
    ensures
        r@ == cs@.subrange(lo as int, hi as int),
{
    s.substring_char(lo, hi).to_owned()
}

/// Parses the argument `cs[lo..hi]`.
fn parse_arg_at(s: &str, cs: &Vec<char>, lo: usize, hi: usize) -> (r: Result<
    (String, EnumType),
    CommandParseError,
>)
    requires
        cs@ == s@,
        lo <= hi <= cs@.len(),
    ensures
        match parse_arg(cs@.subrange(lo as int, hi as int)) {
            Ok((k, ty)) => r matches Ok((name, t)) && name@ == k && t == ty,
            Err(e) => r matches Err(x) && x@ == e,
        },
{
    let ghost t = cs@.subrange(lo as int, hi as int);
    match find_eq(cs, lo, hi) {
        None => Err(CommandParseError::MissingScanf),
        Some(p) => {
            assert(first_index_of(t, '=') == Some(p - lo));
            if p == lo {
                Err(CommandParseError::MissingIdent)
            } else if p + 1 == hi {
                Err(CommandParseError::MissingScanf)
            } else {
                assert(t.skip(p - lo + 1) =~= cs@.subrange(p + 1, hi as int));
                assert(t.take(p - lo) =~= cs@.subrange(lo as int, p as int));
                match scanf_type_at(cs, p + 1, hi) {
                    Some(ty) => Ok((text_of(s, cs, lo, p), ty)),
                    None => Err(CommandParseError::InvalidLiteral { what: text_of(s, cs, p + 1, hi) }),
                }
            }
        },
    }
}

impl Command {
    /// Parses a declaration `"name field=%token ..."`. Fields keep the order
    /// in which they are written; a repeated field name keeps its first
    /// place and takes the later type.
    pub fn from_str(def: &str) -> (r: Result<Command, CommandParseError>)
        ensures
            match parse_decl(def@) {
                Ok(m) => r matches Ok(c) && c.model() == m && c.def@ == def@,
                Err(e) => r matches Err(x) && x@ == e,
            },
    {
        let cs = chars_of(def);
        let spans = word_spans(&cs);
        let ghost ws = words(cs@);
        assert(ws.len() == spans@.len());
        if spans.len() == 0 {
            return Err(CommandParseError::MissingIdent);
        }
        let (n0, n1) = spans[0];
        let name = text_of(def, &cs, n0, n1);
        assert(name@ == ws[0]);
        let mut fields = new_field_map();
        let mut i: usize = 1;
        assert(ws.skip(1).take(0) =~= Seq::<Seq<char>>::empty());
        while i < spans.len()
            invariant
                cs@ == def@,
                ws == words(cs@),
                ws == span_texts(cs@, spans@),
                forall|j: int| 0 <= j < spans@.len() ==> (#[trigger] spans@[j]).0 <= spans@[j].1 <= cs@.len(),
                1 <= i <= spans@.len(),
                parse_args(ws.skip(1).take(i - 1)) == Ok::<Seq<(Seq<char>, EnumType)>, SchemaFault>(
                    field_entries(fields),
                ),
            decreases spans@.len() - i,
        {
            let (lo, hi) = spans[i];
            let ghost prefix = ws.skip(1).take(i - 1);
            assert(ws.skip(1).take(i as int).drop_last() =~= prefix);
            assert(ws.skip(1).take(i as int).last() == cs@.subrange(lo as int, hi as int));
            match parse_arg_at(def, &cs, lo, hi) {
                Ok((k, ty)) => {
                    insert_field(&mut fields, k, ty);
                },
                Err(e) => {
                    proof {
                        lemma_parse_args_error(ws.skip(1), i as int);
                    }
                    return Err(e);
                },
            }
            i += 1;
        }
        assert(ws.skip(1).take(i - 1) =~= ws.skip(1));
        Ok(Command { name, def: def.to_owned(), fields })
    }
}

/// An error in the first `k` arguments is the error of all of them.
proof fn lemma_parse_args_error(args: Seq<Seq<char>>, k: int)
    requires
        0 <= k <= args.len(),
        parse_args(args.take(k)) is Err,
    ensures
        parse_args(args) == parse_args(args.take(k)),
    decreases args.len(),
{
    if args.len() > k {
        assert(args.drop_last().take(k) =~= args.take(k));
        lemma_parse_args_error(args.drop_last(), k);
    } else {
        assert(args.take(k) =~= args);
    }
}

/// Types that can be read from a declaration.
pub trait FromCommandDecl: Sized {
    type Err;

    fn from_str(s: &str) -> Result<Self, Self::Err>;
}

impl FromCommandDecl for Command {
    type Err = CommandParseError;

    fn from_str(s: &str) -> Result<Command, CommandParseError> {
        Command::from_str(s)
    }
}

} // verus!
