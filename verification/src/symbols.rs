//! Symbol resolution: parses the optional symbol document into two
//! read-only tables, code address to display name and code address to
//! source location, populated once before aggregation and never mutated
//! afterward.
//!
//! The document's markup is read by an outside XML parser behind one
//! trusted wrapper; everything the tables are built from — attribute
//! selection, number parsing, namespace stripping, name joining — is
//! verified here.

use vstd::prelude::*;
use vstd::string::StrSliceExecFns;
use vstd::string::StringExecFns;

use crate::aggregate::key_index;

verus! {

/// A resolved source position of one code address.
#[derive(Debug, PartialEq)]
pub struct SourceLocation {
    /// Source file name.
    pub file: String,
    /// Line number, as the symbol document states it.
    pub line: i32,
    /// Qualified symbol name.
    pub symbol: String,
}

/// Mathematical model of a source location.
#[verifier::ext_equal]
pub struct SourceLocationView {
    pub file: Seq<char>,
    pub line: i32,
    pub symbol: Seq<char>,
}

impl View for SourceLocation {
    type V = SourceLocationView;

    open spec fn view(&self) -> SourceLocationView {
        SourceLocationView { file: self.file@, line: self.line, symbol: self.symbol@ }
    }
}

/// The two symbol tables: name resolution for the aggregator, source
/// resolution for the report's call-stack detail.
#[derive(Debug)]
pub struct DebugInfo {
    /// Code address to display name.
    pub pc_to_name: Vec<(i32, String)>,
    /// Code address to source location.
    pub pc_to_source: Vec<(i32, SourceLocation)>,
}

/// Why the symbol document was rejected.
#[derive(Clone, Copy, Debug, PartialEq, Eq, Structural)]
pub enum SymbolFileError {
    /// The document is not well-formed markup.
    Malformed,
}

/// One start element of the document: its local name and its attributes'
/// local names and values, in document order.
#[verifier::ext_equal]
pub struct ElementView {
    pub name: Seq<char>,
    pub attrs: Seq<(Seq<char>, Seq<char>)>,
}

/// The model of an attribute list.
pub open spec fn attrs_view(s: Seq<(String, String)>) -> Seq<(Seq<char>, Seq<char>)> {
    s.map_values(|a: (String, String)| (a.0@, a.1@))
}

/// The model of an element list.
pub open spec fn elements_view(s: Seq<(String, Vec<(String, String)>)>) -> Seq<ElementView> {
    s.map_values(|e: (String, Vec<(String, String)>)| ElementView { name: e.0@, attrs: attrs_view(e.1@) })
}

/// What the outside XML parser yields for a document: its start elements
/// in order, or nothing when the document is malformed. The result depends
/// on the document text alone.
pub uninterp spec fn xml_elements_of(text: Seq<char>) -> Option<Seq<ElementView>>;

/// Relies on xml::reader::EventReader: walks the document and yields each
/// start element's local name together with its attributes' local names
/// and values, in document order; reports a malformed document as `None`.
#[verifier::external_body]
fn read_start_elements(text: &str) -> (r: Option<Vec<(String, Vec<(String, String)>)>>)
    ensures
        match r {
            Some(els) => xml_elements_of(text@) == Some(elements_view(els@)),
            None => xml_elements_of(text@) is None,
        },
{
    let mut out = Vec::new();
    for event in xml::reader::EventReader::from_str(text) {
        match event {
            Ok(xml::reader::XmlEvent::StartElement { name, attributes, .. }) => {
                let attrs = attributes.into_iter().map(|a| (a.name.local_name, a.value)).collect();
                out.push((name.local_name, attrs));
            },
            Ok(xml::reader::XmlEvent::EndDocument) => break,
            Err(_) => return None,
            _ => {},
        }
    }
    Some(out)
}

/// Whether two strings hold the same characters.
fn str_equal(a: &str, b: &str) -> (r: bool)
    ensures
        r == (a@ == b@),
{
    let n = a.unicode_len();
    if n != b.unicode_len() {
        return false;
    }
    let mut i: usize = 0;
    while i < n
        invariant
            i <= n,
            n == a@.len(),
            n == b@.len(),
            forall|j: int| 0 <= j < i ==> a@[j] == b@[j],
        decreases n - i,
    {
        if a.get_char(i) != b.get_char(i) {
            return false;
        }
        i = i + 1;
    }
    proof {
        assert(a@ =~= b@);
    }
    true
}

/// The value of the last attribute with the given name, if any: a later
/// occurrence of an attribute replaces an earlier one.
pub open spec fn attr_opt(attrs: Seq<(Seq<char>, Seq<char>)>, key: Seq<char>) -> Option<Seq<char>>
    decreases attrs.len(),
{
    if attrs.len() == 0 {
        None
    } else if attrs.last().0 == key {
        Some(attrs.last().1)
    } else {
        attr_opt(attrs.drop_last(), key)
    }
}

/// The value of the last attribute with the given name, or empty.
pub open spec fn attr_or_empty(attrs: Seq<(Seq<char>, Seq<char>)>, key: Seq<char>) -> Seq<char> {
    match attr_opt(attrs, key) {
        Some(v) => v,
        None => Seq::empty(),
    }
}

/// The integer an attribute names: -1 when the attribute is absent or does
/// not parse as a 32-bit integer, exactly as an absent table entry is
/// encoded in the document's scheme.
pub open spec fn attr_i32_or_neg(attrs: Seq<(Seq<char>, Seq<char>)>, key: Seq<char>) -> i32 {
    match attr_opt(attrs, key) {
        None => -1i32,
        Some(t) => match spec_parse_i32(t) {
            Some(v) => v,
            None => -1i32,
        },
    }
}

fn attr_lookup<'a>(attrs: &'a Vec<(String, String)>, key: &str) -> (r: Option<&'a String>)
    ensures
        match r {
            Some(v) => attr_opt(attrs_view(attrs@), key@) == Some(v@),
            None => attr_opt(attrs_view(attrs@), key@) is None,
        },
{
    let ghost av = attrs_view(attrs@);
    proof {
        assert(av.take(attrs@.len() as int) =~= av);
    }
    let mut i: usize = attrs.len();
    while i > 0
        invariant
            i <= attrs@.len(),
            av == attrs_view(attrs@),
            attr_opt(av, key@) == attr_opt(av.take(i as int), key@),
        decreases i,
    {
        i = i - 1;
        proof {
            assert(av.take(i + 1).drop_last() =~= av.take(i as int));
            assert(av.take(i + 1).last() == (attrs@[i as int].0@, attrs@[i as int].1@));
        }
        if str_equal(attrs[i].0.as_str(), key) {
            return Some(&attrs[i].1);
        }
    }
    proof {
        assert(av.take(0) =~= Seq::<(Seq<char>, Seq<char>)>::empty());
    }
    None
}

/// Whether a character is a decimal digit.
pub open spec fn is_digit(c: char) -> bool {
    48 <= c as u32 <= 57
}

/// The value of the digits from position `i` on, accumulated onto `acc`.
pub open spec fn digits_value(s: Seq<char>, i: int, acc: int) -> int
    decreases s.len() - i,
{
    if i < 0 || i >= s.len() {
        acc
    } else {
        digits_value(s, i + 1, acc * 10 + (c_int(s[i]) - 48))
    }
}

/// A character's code point as an integer.
pub open spec fn c_int(c: char) -> int {
    c as u32 as int
}

/// What a decimal string means: an optional sign, then one or more
/// digits, no other characters, and the value must fit a 32-bit signed
/// integer; anything else parses to nothing.
pub open spec fn spec_parse_i32(s: Seq<char>) -> Option<i32> {
    let start: int = if s.len() > 0 && (s[0] == '-' || s[0] == '+') {
        1
    } else {
        0
    };
    let neg = s.len() > 0 && s[0] == '-';
    if s.len() <= start {
        None
    } else if exists|j: int| start <= j < s.len() && !is_digit(#[trigger] s[j]) {
        None
    } else {
        let v = digits_value(s, start, 0);
        if neg {
            if -v >= i32::MIN {
                Some((-v) as i32)
            } else {
                None
            }
        } else {
            if v <= i32::MAX {
                Some(v as i32)
            } else {
                None
            }
        }
    }
}

proof fn lemma_digits_value_grows(s: Seq<char>, i: int, acc: int)
    requires
        0 <= acc,
        forall|j: int| i <= j < s.len() ==> is_digit(#[trigger] s[j]),
    ensures
        digits_value(s, i, acc) >= acc,
    decreases s.len() - i,
{
    if !(i < 0 || i >= s.len()) {
        assert(is_digit(s[i]));
        lemma_digits_value_grows(s, i + 1, acc * 10 + (c_int(s[i]) - 48));
    }
}

/// Parses a decimal 32-bit integer: an optional sign, then digits, with
/// the usual range check; `None` on anything else.
pub fn parse_i32(s: &str) -> (r: Option<i32>)
    ensures
        r == spec_parse_i32(s@),
{
    let n = s.unicode_len();
    if n == 0 {
        return None;
    }
    let first = s.get_char(0);
    let start: usize = if first == '-' || first == '+' {
        1
    } else {
        0
    };
    let neg = first == '-';
    if n <= start {
        return None;
    }
    let mut i: usize = start;
    let mut acc: i64 = 0;
    let mut too_big = false;
    let ghost mut exact: int = 0;
    while i < n
        invariant
            start <= i <= n,
            n == s@.len(),
            start == if s@.len() > 0 && (s@[0] == '-' || s@[0] == '+') {
                1int
            } else {
                0int
            },
            forall|j: int| start <= j < i ==> is_digit(#[trigger] s@[j]),
            digits_value(s@, start as int, 0) == digits_value(s@, i as int, exact),
            0 <= exact,
            too_big <==> exact > 0x8000_0000,
            !too_big ==> acc == exact,
        decreases n - i,
    {
        let c = s.get_char(i);
        let code = c as u32;
        if code < 48 || code > 57 {
            proof {
                assert(!is_digit(s@[i as int]));
            }
            return None;
        }
        let d = (code - 48) as i64;
        proof {
            exact = exact * 10 + (c_int(s@[i as int]) - 48);
        }
        if too_big {
        } else {
            acc = acc * 10 + d;
            if acc > 0x8000_0000 {
                too_big = true;
            }
        }
        i = i + 1;
    }
    proof {
        assert(digits_value(s@, n as int, exact) == exact);
        if too_big {
            assert(exact > i32::MAX);
            assert(-exact < i32::MIN);
        }
    }
    if too_big {
        return None;
    }
    if neg {
        if acc <= 0x8000_0000 {
            proof {
                assert(-exact >= i32::MIN);
            }
            return Some((-acc) as i32);
        }
        return None;
    }
    if acc <= 0x7FFF_FFFF {
        return Some(acc as i32);
    }
    None
}

/// A namespace prefix with the fixed root token stripped: `globals/` at
/// the front is removed, anything else is kept as it is.
pub open spec fn spec_strip_globals(s: Seq<char>) -> Seq<char> {
    if s.len() >= 8 && s.subrange(0, 8) == "globals/"@ {
        s.skip(8)
    } else {
        s
    }
}

/// Strips the fixed `globals/` root token from the front of a namespace
/// prefix.
pub fn strip_globals(s: &str) -> (r: String)
    ensures
        r@ == spec_strip_globals(s@),
{
    proof {
        reveal_strlit("globals/");
    }
    let lit = "globals/";
    let n = s.unicode_len();
    if n < 8 {
        return s.to_owned();
    }
    let mut i: usize = 0;
    while i < 8
        invariant
            i <= 8,
            n == s@.len(),
            n >= 8,
            lit@ == "globals/"@,
            lit@.len() == 8,
            forall|j: int| 0 <= j < i ==> s@[j] == "globals/"@[j],
        decreases 8 - i,
    {
        if s.get_char(i) != lit.get_char(i) {
            proof {
                assert(s@.subrange(0, 8)[i as int] != "globals/"@[i as int]);
            }
            return s.to_owned();
        }
        i = i + 1;
    }
    proof {
        assert(s@.subrange(0, 8) =~= "globals/"@);
        assert(s@.subrange(8, n as int) =~= s@.skip(8));
    }
    let rest = s.substring_char(8, n);
    rest.to_owned()
}

/// The qualified display name: the symbol alone when it has no parent,
/// else the parent and the symbol joined with a dot.
pub open spec fn spec_full_name(parent: Seq<char>, name: Seq<char>) -> Seq<char> {
    if parent.len() > 0 {
        parent + "."@ + name
    } else {
        name
    }
}

fn join_full_name(parent: String, name: &str) -> (r: String)
    ensures
        r@ == spec_full_name(parent@, name@),
{
    if parent.as_str().is_empty() {
        return name.to_owned();
    }
    let mut full = parent;
    full.append(".");
    full.append(name);
    full
}

/// Both tables at one point of the build.
#[verifier::ext_equal]
pub struct DebugTables {
    pub names: Seq<(i32, Seq<char>)>,
    pub sources: Seq<(i32, SourceLocationView)>,
}

/// An insertion that replaces the entry with the same key, if any.
pub open spec fn assoc_put<V>(s: Seq<(i32, V)>, k: i32, v: V) -> Seq<(i32, V)> {
    let r = key_index(s, k);
    if r >= 0 {
        s.update(r, (k, v))
    } else {
        s.push((k, v))
    }
}

/// What one element of the document contributes: a function-declaration
/// entry extends the name table, a line-table entry extends the source
/// table (its parent namespace stripped of the fixed root token), anything
/// else is ignored. An entry whose code address is absent or unparsable is
/// skipped.
pub open spec fn spec_apply_element(t: DebugTables, e: ElementView) -> DebugTables {
    if e.name == "functionEntry"@ {
        let start_pc = attr_i32_or_neg(e.attrs, "startPc"@);
        if start_pc != -1 {
            let full = spec_full_name(
                attr_or_empty(e.attrs, "parent"@),
                attr_or_empty(e.attrs, "name"@),
            );
            DebugTables { names: assoc_put(t.names, start_pc, full), sources: t.sources }
        } else {
            t
        }
    } else if e.name == "entry"@ {
        let pc = attr_i32_or_neg(e.attrs, "pc"@);
        if pc != -1 {
            let clean_parent = spec_strip_globals(attr_or_empty(e.attrs, "parent"@));
            let full = spec_full_name(clean_parent, attr_or_empty(e.attrs, "symbol"@));
            let loc = SourceLocationView {
                file: attr_or_empty(e.attrs, "filename"@),
                line: attr_i32_or_neg(e.attrs, "lineNum"@),
                symbol: full,
            };
            DebugTables { names: t.names, sources: assoc_put(t.sources, pc, loc) }
        } else {
            t
        }
    } else {
        t
    }
}

/// The tables built from a whole element list, in order.
pub open spec fn spec_build_tables(els: Seq<ElementView>) -> DebugTables
    decreases els.len(),
{
    if els.len() == 0 {
        DebugTables { names: Seq::empty(), sources: Seq::empty() }
    } else {
        spec_apply_element(spec_build_tables(els.drop_last()), els.last())
    }
}

/// The model of a name table.
pub open spec fn names_view(s: Seq<(i32, String)>) -> Seq<(i32, Seq<char>)> {
    s.map_values(|e: (i32, String)| (e.0, e.1@))
}

/// The model of a source table.
pub open spec fn sources_view(s: Seq<(i32, SourceLocation)>) -> Seq<(i32, SourceLocationView)> {
    s.map_values(|e: (i32, SourceLocation)| (e.0, e.1@))
}

impl View for DebugInfo {
    type V = DebugTables;

    open spec fn view(&self) -> DebugTables {
        DebugTables {
            names: names_view(self.pc_to_name@),
            sources: sources_view(self.pc_to_source@),
        }
    }
}

fn put_name(names: &mut Vec<(i32, String)>, pc: i32, full: String)
    ensures
        names_view(final(names)@) == assoc_put(names_view(old(names)@), pc, full@),
{
    let ghost nv = names_view(names@);
    proof {
        crate::aggregate::lemma_key_index(nv, pc);
    }
    let mut i: usize = 0;
    while i < names.len()
        invariant
            i <= names@.len(),
            names@ == old(names)@,
            nv == names_view(names@),
            forall|j: int| 0 <= j < i ==> nv[j].0 != pc,
        decreases names@.len() - i,
    {
        proof {
            assert(nv[i as int] == (names@[i as int].0, names@[i as int].1@));
        }
        if names[i].0 == pc {
            let ghost table0 = names@;
            let ghost fv = full@;
            let _ = names.remove(i);
            names.insert(i, (pc, full));
            proof {
                crate::aggregate::lemma_key_index(nv, pc);
                assert(nv[i as int].0 == pc);
                assert(key_index(nv, pc) == i as int);
                crate::aggregate::lemma_remove_insert(table0, i as int, names@[i as int]);
                assert(names_view(names@) =~= assoc_put(nv, pc, fv));
            }
            return ;
        }
        i = i + 1;
    }
    names.push((pc, full));
    proof {
        assert(names_view(names@) =~= assoc_put(nv, pc, full@));
    }
}

fn put_source(sources: &mut Vec<(i32, SourceLocation)>, pc: i32, loc: SourceLocation)
    ensures
        sources_view(final(sources)@) == assoc_put(sources_view(old(sources)@), pc, loc@),
{
    let ghost sv = sources_view(sources@);
    proof {
        crate::aggregate::lemma_key_index(sv, pc);
    }
    let mut i: usize = 0;
    while i < sources.len()
        invariant
            i <= sources@.len(),
            sources@ == old(sources)@,
            sv == sources_view(sources@),
            forall|j: int| 0 <= j < i ==> sv[j].0 != pc,
        decreases sources@.len() - i,
    {
        proof {
            assert(sv[i as int] == (sources@[i as int].0, sources@[i as int].1@));
        }
        if sources[i].0 == pc {
            let ghost table0 = sources@;
            let ghost lv = loc@;
            let _ = sources.remove(i);
            sources.insert(i, (pc, loc));
            proof {
                crate::aggregate::lemma_key_index(sv, pc);
                assert(sv[i as int].0 == pc);
                assert(key_index(sv, pc) == i as int);
                crate::aggregate::lemma_remove_insert(table0, i as int, sources@[i as int]);
                assert(sources_view(sources@) =~= assoc_put(sv, pc, lv));
            }
            return ;
        }
        i = i + 1;
    }
    sources.push((pc, loc));
    proof {
        assert(sources_view(sources@) =~= assoc_put(sv, pc, loc@));
    }
}

fn attr_i32(attrs: &Vec<(String, String)>, key: &str) -> (r: i32)
    ensures
        r == attr_i32_or_neg(attrs_view(attrs@), key@),
{
    match attr_lookup(attrs, key) {
        None => -1,
        Some(t) => match parse_i32(t.as_str()) {
            Some(v) => v,
            None => -1,
        },
    }
}

fn attr_string(attrs: &Vec<(String, String)>, key: &str) -> (r: String)
    ensures
        r@ == attr_or_empty(attrs_view(attrs@), key@),
{
    match attr_lookup(attrs, key) {
        None => String::new(),
        Some(t) => t.clone(),
    }
}

/// Builds the two symbol tables from the document's start elements:
/// function-declaration entries populate the name table, line-table
/// entries the source table, later entries replacing earlier ones with
/// the same code address.
pub fn build_debug_info(elements: &Vec<(String, Vec<(String, String)>)>) -> (info: DebugInfo)
    ensures
        info@ == spec_build_tables(elements_view(elements@)),
{
    let ghost ev = elements_view(elements@);
    let mut info = DebugInfo { pc_to_name: Vec::new(), pc_to_source: Vec::new() };
    proof {
        assert(names_view(info.pc_to_name@) =~= Seq::<(i32, Seq<char>)>::empty());
        assert(sources_view(info.pc_to_source@) =~= Seq::<(i32, SourceLocationView)>::empty());
        assert(info@ =~~= spec_build_tables(ev.take(0)));
    }
    let mut i: usize = 0;
    while i < elements.len()
        invariant
            i <= elements@.len(),
            ev == elements_view(elements@),
            info@ == spec_build_tables(ev.take(i as int)),
        decreases elements@.len() - i,
    {
        let ghost e = ev[i as int];
        proof {
            assert(e == ElementView {
                name: elements@[i as int].0@,
                attrs: attrs_view(elements@[i as int].1@),
            });
            assert(ev.take(i + 1).drop_last() =~= ev.take(i as int));
            assert(ev.take(i + 1).last() == e);
        }
        let name = &elements[i].0;
        let attrs = &elements[i].1;
        if str_equal(name.as_str(), "functionEntry") {
            let start_pc = attr_i32(attrs, "startPc");
            if start_pc != -1 {
                let parent = attr_string(attrs, "parent");
                let fname = attr_string(attrs, "name");
                let full = join_full_name(parent, fname.as_str());
                put_name(&mut info.pc_to_name, start_pc, full);
            }
        } else if str_equal(name.as_str(), "entry") {
            let pc = attr_i32(attrs, "pc");
            if pc != -1 {
                let parent = attr_string(attrs, "parent");
                let clean_parent = strip_globals(parent.as_str());
                let symbol = attr_string(attrs, "symbol");
                let full = join_full_name(clean_parent, symbol.as_str());
                let loc = SourceLocation {
                    file: attr_string(attrs, "filename"),
                    line: attr_i32(attrs, "lineNum"),
                    symbol: full,
                };
                put_source(&mut info.pc_to_source, pc, loc);
            }
        }
        proof {
            assert(info@ =~~= spec_build_tables(ev.take(i + 1)));
        }
        i = i + 1;
    }
    proof {
        assert(ev.take(ev.len() as int) =~= ev);
    }
    info
}

/// Parses the symbol document and builds the two tables. Fails exactly
/// when the document is not well-formed markup; a missing or odd attribute
/// only skips its own entry.
pub fn parse_debug_xml(text: &str) -> (r: Result<DebugInfo, SymbolFileError>)
    ensures
        match xml_elements_of(text@) {
            Some(els) => r matches Ok(info) && info@ == spec_build_tables(els),
            None => r matches Err(SymbolFileError::Malformed),
        },
{
    match read_start_elements(text) {
        None => Err(SymbolFileError::Malformed),
        Some(els) => Ok(build_debug_info(&els)),
    }
}

/// Looks a code address up in the name table.
pub fn resolve_name<'a>(names: &'a Vec<(i32, String)>, pc: i32) -> (r: Option<&'a String>)
    ensures
        match r {
            Some(s) => key_index(names@, pc) >= 0 && s@ == names@[key_index(names@, pc)].1@,
            None => key_index(names@, pc) == -1,
        },
{
    proof {
        crate::aggregate::lemma_key_index(names@, pc);
    }
    let mut i: usize = 0;
    while i < names.len()
        invariant
            i <= names@.len(),
            forall|j: int| 0 <= j < i ==> names@[j].0 != pc,
        decreases names@.len() - i,
    {
        if names[i].0 == pc {
            proof {
                crate::aggregate::lemma_key_index(names@, pc);
            }
            return Some(&names[i].1);
        }
        i = i + 1;
    }
    None
}

/// Looks a code address up in the source table.
pub fn resolve_source<'a>(sources: &'a Vec<(i32, SourceLocation)>, pc: i32) -> (r: Option<
    &'a SourceLocation,
>)
    ensures
        match r {
            Some(loc) => key_index(sources@, pc) >= 0 && loc@ == sources@[key_index(
                sources@,
                pc,
            )].1@,
            None => key_index(sources@, pc) == -1,
        },
{
    proof {
        crate::aggregate::lemma_key_index(sources@, pc);
    }
    let mut i: usize = 0;
    while i < sources.len()
        invariant
            i <= sources@.len(),
            forall|j: int| 0 <= j < i ==> sources@[j].0 != pc,
        decreases sources@.len() - i,
    {
        if sources[i].0 == pc {
            proof {
                crate::aggregate::lemma_key_index(sources@, pc);
            }
            return Some(&sources[i].1);
        }
        i = i + 1;
    }
    None
}

} // verus!
