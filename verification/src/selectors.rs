//! Selectors of records by what they do: PERK entry points and OMOD
//! properties.
use crate::error::Error;
use crate::formid::{chars_all_digits, hex_prefixed};
use crate::json::{as_text, as_uint, field, Json, Value};
use crate::text::{
    all_digits, chars_of, concat, decimal, decimal_string, digits_value, eq_nocase, find_in,
    is_whitespace, opt_slice, parse_chars, parse_uint, split_once, str_eq, str_eq_nocase,
    string_of, trim_chars, trimmed, whitespace,
};
use crate::wildcard::{holds_char, matches_pattern, wildcard_match};
use vstd::prelude::*;

verus! {

/// A selection by number or by name, as mathematics.
#[verifier::ext_equal]
pub ghost enum Pick {
    Id(u16),
    Name(Seq<char>),
}

/// The selection that a token makes: digits that fit an id are one, and all
/// else is a name.
pub open spec fn picked(t: Seq<char>) -> Pick {
    if t.len() > 0 && all_digits(t, 10) && digits_value(t, 10) <= 65535 {
        Pick::Id(digits_value(t, 10) as u16)
    } else {
        Pick::Name(t)
    }
}

/// The id that digits from `from` on write, if it fits.
fn parse_id(v: &Vec<char>, from: usize) -> (r: Option<u16>)
    requires
        from <= v.len(),
    ensures
        match r {
            Some(id) => picked(v@.skip(from as int)) == Pick::Id(id),
            None => picked(v@.skip(from as int)) == Pick::Name(v@.skip(from as int)),
        },
{
    let ghost t = v@.skip(from as int);
    if from == v.len() || !chars_all_digits(v, from, 10) {
        return None;
    }
    assert(t[0] != '+') by {
        assert(crate::text::digit_value(t[0]) < 10);
    }
    match parse_chars(v, from, 10, 65535) {
        Some(n) => {
            assert(parse_uint(t, 10, 65535) == Some(digits_value(t, 10)));
            Some(n as u16)
        },
        None => None,
    }
}

/// How a selection reads.
pub open spec fn pick_text(p: Pick) -> Seq<char> {
    match p {
        Pick::Id(id) => decimal(id as int),
        Pick::Name(n) => "'"@ + n + "'"@,
    }
}

/// A name in quotes.
fn quoted(n: &str) -> (r: String)
    ensures
        r@ == "'"@ + n@ + "'"@,
{
    concat(&concat("'", n), "'")
}

/// A selector of PERK entry points, by number or by name.
#[derive(Debug, Clone)]
pub enum EntryPointSpec {
    Id(u16),
    Name(String),
}

impl View for EntryPointSpec {
    type V = Pick;

    open spec fn view(&self) -> Pick {
        match self {
            EntryPointSpec::Id(id) => Pick::Id(*id),
            EntryPointSpec::Name(n) => Pick::Name(n@),
        }
    }
}

impl EntryPointSpec {
    /// Reads a selector. Hexadecimal input is a FormID given by mistake.
    pub fn parse(s: &str) -> (r: Result<EntryPointSpec, Error>)
        ensures
            match r {
                Ok(spec) => !hex_prefixed(trimmed(s@)) && spec@ == picked(trimmed(s@)),
                Err(e) => hex_prefixed(trimmed(s@)) && (e matches Error::FormIdAsEntryPoint(t)
                    && t@ == trimmed(s@)),
            },
    {
        let v = trim_chars(s);
        let t = string_of(&v, 0, v.len());
        assert(t@ =~= v@);
        assert(v@.skip(0) =~= v@);
        if v.len() >= 2 && v[0] == '0' && (v[1] == 'x' || v[1] == 'X') {
            return Err(Error::FormIdAsEntryPoint(t));
        }
        match parse_id(&v, 0) {
            Some(id) => Ok(EntryPointSpec::Id(id)),
            None => Ok(EntryPointSpec::Name(t)),
        }
    }

    /// How the selector reads.
    pub fn display(&self) -> (r: String)
        ensures
            r@ == pick_text(self@),
    {
        match self {
            EntryPointSpec::Id(id) => decimal_string(*id as i128),
            EntryPointSpec::Name(n) => quoted(n),
        }
    }
}

/// What an OMOD's properties apply to; each numbers its properties apart.
#[derive(Debug, Clone, Copy, PartialEq, Eq, Structural)]
pub enum PropScope {
    Weap,
    Armo,
    Npc,
}

impl PropScope {
    /// The form type that a scope's OMODs have.
    pub open spec fn form_type(self) -> Seq<char> {
        match self {
            PropScope::Weap => "Weapon"@,
            PropScope::Armo => "Armor"@,
            PropScope::Npc => "Non-player character"@,
        }
    }

    /// The short name of a scope.
    pub open spec fn tag(self) -> Seq<char> {
        match self {
            PropScope::Weap => "weap"@,
            PropScope::Armo => "armo"@,
            PropScope::Npc => "npc"@,
        }
    }

    /// The name of the form type that a scope's OMODs decode to.
    pub fn form_type_name(self) -> (r: &'static str)
        ensures
            r@ == self.form_type(),
    {
        match self {
            PropScope::Weap => "Weapon",
            PropScope::Armo => "Armor",
            PropScope::Npc => "Non-player character",
        }
    }

    /// The short name of a scope.
    pub fn tag_str(self) -> (r: &'static str)
        ensures
            r@ == self.tag(),
    {
        match self {
            PropScope::Weap => "weap",
            PropScope::Armo => "armo",
            PropScope::Npc => "npc",
        }
    }

    /// The scope that a prefix names.
    pub fn from_prefix(prefix: &str) -> (r: Option<PropScope>)
        ensures
            r == scope_of_prefix(prefix@),
    {
        if str_eq_nocase(prefix, "weap") || str_eq_nocase(prefix, "weapon") {
            Some(PropScope::Weap)
        } else if str_eq_nocase(prefix, "armo") || str_eq_nocase(prefix, "armor") {
            Some(PropScope::Armo)
        } else if str_eq_nocase(prefix, "npc") || str_eq_nocase(prefix, "npc_") {
            Some(PropScope::Npc)
        } else {
            None
        }
    }

    /// The scope of a form type.
    pub fn from_form_type_name(name: &str) -> (r: Option<PropScope>)
        ensures
            r == scope_of_form_type(name@),
    {
        if str_eq(name, "Weapon") {
            Some(PropScope::Weap)
        } else if str_eq(name, "Armor") {
            Some(PropScope::Armo)
        } else if str_eq(name, "Non-player character") {
            Some(PropScope::Npc)
        } else {
            None
        }
    }
}

/// The scope that a prefix names, whatever its case.
pub open spec fn scope_of_prefix(p: Seq<char>) -> Option<PropScope> {
    if eq_nocase(p, "weap"@) || eq_nocase(p, "weapon"@) {
        Some(PropScope::Weap)
    } else if eq_nocase(p, "armo"@) || eq_nocase(p, "armor"@) {
        Some(PropScope::Armo)
    } else if eq_nocase(p, "npc"@) || eq_nocase(p, "npc_"@) {
        Some(PropScope::Npc)
    } else {
        None
    }
}

/// The first scope whose OMODs have a form type.
pub open spec fn scope_of_form_type(name: Seq<char>) -> Option<PropScope> {
    if name == PropScope::Weap.form_type() {
        Some(PropScope::Weap)
    } else if name == PropScope::Armo.form_type() {
        Some(PropScope::Armo)
    } else if name == PropScope::Npc.form_type() {
        Some(PropScope::Npc)
    } else {
        None
    }
}

/// A selector of OMOD properties within a scope.
#[derive(Debug, Clone)]
pub enum OmodPropertySel {
    Id(u16),
    Name(String),
}

impl View for OmodPropertySel {
    type V = Pick;

    open spec fn view(&self) -> Pick {
        match self {
            OmodPropertySel::Id(id) => Pick::Id(*id),
            OmodPropertySel::Name(n) => Pick::Name(n@),
        }
    }
}

/// A selector of OMOD properties, by number or by name; a number needs a
/// scope.
#[derive(Debug, Clone)]
pub struct OmodPropertySpec {
    pub scope: Option<PropScope>,
    pub sel: OmodPropertySel,
}

/// The scope and the rest of a token; what is no scope belongs to the rest.
pub open spec fn scope_and_rest(t: Seq<char>) -> (Option<PropScope>, Seq<char>) {
    match split_once(t, ':') {
        Some((prefix, rest)) => match scope_of_prefix(prefix) {
            Some(scope) => (Some(scope), rest),
            None => (None, t),
        },
        None => (None, t),
    }
}

impl OmodPropertySpec {
    /// Reads a selector. Hexadecimal input is a FormID given by mistake, and
    /// an id means nothing without a scope.
    pub fn parse(s: &str) -> (r: Result<OmodPropertySpec, Error>)
        ensures
            ({
                let t = trimmed(s@);
                let (scope, rest) = scope_and_rest(t);
                match r {
                    Ok(spec) => !hex_prefixed(t) && !(picked(rest) is Id && scope is None)
                        && spec.scope == scope && spec.sel@ == picked(rest),
                    Err(e) => if hex_prefixed(t) {
                        e matches Error::FormIdAsOmodProperty(x) && x@ == t
                    } else {
                        picked(rest) is Id && scope is None && e == Error::UnscopedPropertyId
                    },
                }
            }),
    {
        let v = trim_chars(s);
        let t = string_of(&v, 0, v.len());
        assert(t@ =~= v@);
        assert(v@.skip(0) =~= v@);
        if v.len() >= 2 && v[0] == '0' && (v[1] == 'x' || v[1] == 'X') {
            return Err(Error::FormIdAsOmodProperty(t));
        }
        let at: usize = find_in(&v, 0, ':');
        let mut scope: Option<PropScope> = None;
        let mut from: usize = 0;
        if at < v.len() {
            let prefix = string_of(&v, 0, at);
            assert(prefix@ =~= v@.take(at as int));
            if let Some(found) = PropScope::from_prefix(&prefix) {
                scope = Some(found);
                from = at + 1;
            }
        }
        assert((scope, v@.skip(from as int)) == scope_and_rest(v@));
        let sel = match parse_id(&v, from) {
            Some(id) => {
                if scope.is_none() {
                    return Err(Error::UnscopedPropertyId);
                }
                OmodPropertySel::Id(id)
            },
            None => {
                let rest = string_of(&v, from, v.len());
                assert(rest@ =~= v@.skip(from as int));
                OmodPropertySel::Name(rest)
            },
        };
        Ok(OmodPropertySpec { scope, sel })
    }

    /// How the selector reads.
    pub open spec fn reads(&self) -> Seq<char> {
        match self.scope {
            Some(scope) => scope.tag() + ":"@ + pick_text(self.sel@),
            None => pick_text(self.sel@),
        }
    }

    /// How the selector reads.
    pub fn display(&self) -> (r: String)
        ensures
            r@ == self.reads(),
    {
        let sel = match &self.sel {
            OmodPropertySel::Id(id) => decimal_string(*id as i128),
            OmodPropertySel::Name(n) => quoted(n),
        };
        match self.scope {
            Some(scope) => concat(&concat(scope.tag_str(), ":"), &sel),
            None => sel,
        }
    }
}

// ── Matching ───────────────────────────────────────────────────────────────
/// Whether a name matches a pattern: all of it whatever the case, unless the
/// pattern holds `*`.
pub open spec fn name_matches(pattern: Seq<char>, name: Seq<char>) -> bool {
    if pattern.contains('*') {
        matches_pattern(pattern, name)
    } else {
        eq_nocase(pattern, name)
    }
}

/// Whether the name of an entry point matches a pattern.
pub fn entry_point_name_matches(pattern: &str, name: &str) -> (r: bool)
    ensures
        r == name_matches(pattern@, name@),
{
    if holds_char(&chars_of(pattern), '*') {
        wildcard_match(pattern, name)
    } else {
        str_eq_nocase(pattern, name)
    }
}

/// `s` without white space.
pub open spec fn squeezed(s: Seq<char>) -> Seq<char>
    decreases s.len(),
{
    if s.len() == 0 {
        Seq::empty()
    } else if whitespace(s.last()) {
        squeezed(s.drop_last())
    } else {
        squeezed(s.drop_last()).push(s.last())
    }
}

/// `s` without white space.
fn squeeze(s: &str) -> (r: String)
    ensures
        r@ == squeezed(s@),
{
    let v = chars_of(s);
    let mut r = String::new();
    let mut i: usize = 0;
    assert(r@ =~= squeezed(v@.take(0)));
    while i < v.len()
        invariant
            i <= v.len(),
            r@ == squeezed(v@.take(i as int)),
        decreases v.len() - i,
    {
        assert(v@.take(i + 1).drop_last() =~= v@.take(i as int));
        if !is_whitespace(v[i]) {
            r.push(v[i]);
        }
        i += 1;
    }
    assert(v@.take(i as int) =~= v@);
    r
}

/// Whether the name of an OMOD property matches a pattern, white space aside.
pub fn omod_property_name_matches(pattern: &str, name: &str) -> (r: bool)
    ensures
        r == name_matches(squeezed(pattern@), squeezed(name@)),
{
    let p = squeeze(pattern);
    let n = squeeze(name);
    if holds_char(&chars_of(&p), '*') {
        wildcard_match(&p, &n)
    } else {
        str_eq_nocase(&p, &n)
    }
}

/// The number and the name of a decoded enum value: an object with both, or
/// a bare number where the enum has no name for it.
pub open spec fn id_and_name(v: Json) -> Option<(u16, Option<Seq<char>>)> {
    match v {
        Json::Obj(_) => match field(v, "value"@) {
            Some(n) => match as_uint(n) {
                Some(id) => if id <= 65535 {
                    Some(
                        (
                            id as u16,
                            match field(v, "name"@) {
                                Some(s) => as_text(s),
                                None => None,
                            },
                        ),
                    )
                } else {
                    None
                },
                None => None,
            },
            None => None,
        },
        Json::Int(id) => if 0 <= id <= 65535 {
            Some((id as u16, None))
        } else {
            None
        },
        _ => None,
    }
}

/// The number and the name of a decoded enum value.
pub fn enum_id_name(v: &Value) -> (r: Option<(u16, Option<&str>)>)
    ensures
        match r {
            Some((id, name)) => id_and_name(v@) == Some((id, opt_slice(name))),
            None => id_and_name(v@) is None,
        },
{
    match v {
        Value::Object(o) => {
            let id: u64 = match o.get("value") {
                Some(n) => match n.as_u64() {
                    Some(id) => id,
                    None => {
                        return None;
                    },
                },
                None => {
                    return None;
                },
            };
            if id > 65535 {
                return None;
            }
            let name: Option<&str> = match o.get("name") {
                Some(s) => s.as_str(),
                None => None,
            };
            Some((id as u16, name))
        },
        Value::Int(n) => if 0 <= *n && *n <= 65535 {
            Some((*n as u16, None))
        } else {
            None
        },
        _ => None,
    }
}

/// What a selector of entry points displays reads back as the same selector,
/// if it selects by number.
pub proof fn law_displayed_id_parses(id: u16)
    ensures
        picked(pick_text(Pick::Id(id))) == Pick::Id(id),
{
    lemma_decimal(id as nat);
}

pub proof fn lemma_decimal(n: nat)
    ensures
        ({
            let s = crate::text::digits(n, 10, false);
            s.len() > 0 && all_digits(s, 10) && digits_value(s, 10) == n
        }),
    decreases n,
{
    let s = crate::text::digits(n, 10, false);
    if n < 10 {
        assert(s.drop_last() =~= Seq::<char>::empty());
        assert(digits_value(s.drop_last(), 10) == 0);
    } else {
        let head = crate::text::digits(n / 10, 10, false);
        lemma_decimal(n / 10);
        assert(s.drop_last() =~= head);
        assert forall|i: int| 0 <= i < s.len() implies crate::text::digit_value(#[trigger] s[i]) < 10 by {
            if i < head.len() {
                assert(s[i] == head[i]);
            }
        }
    }
}

} // verus!
