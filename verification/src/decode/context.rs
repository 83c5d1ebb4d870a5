//! What the decoder knows beside the bytes: the file's settings, the tables
//! that references are resolved against, and the place in the record.
use crate::curves::{curve_of, curve_points_value, points_json, CurveIndex};
use crate::formid::FormId;
use crate::json::{obj3, obj4, text, Entries, Json, Object, Value};
use crate::schema::Schema;
use crate::strings::Localization;
use crate::text::{contains_text, hex8, list_contains};
use vstd::prelude::*;

verus! {

/// The marker of a record that the schema does not describe.
pub const UNKNOWN_RECORD: &'static str = "_unknown_record";

/// The marker of a value that fell back to its bytes.
pub const RAW: &'static str = "_raw";

/// The marker of subrecords that the schema did not consume.
pub const UNMAPPED: &'static str = "_unmapped";

/// The marker of a string id that no loaded table holds.
pub const UNRESOLVED: &'static str = "_unresolved";

/// How deeply references are followed.
#[derive(Debug, Clone, Copy, PartialEq, Eq, Structural)]
pub enum ResolveDepth {
    /// A reference is the FormID's text.
    Plain,
    /// A reference is a stub: FormID, EditorID and record type.
    Stub,
    /// A reference is the decoded record that it leads to.
    Full,
}

impl Default for ResolveDepth {
    /// References are not followed.
    fn default() -> (r: ResolveDepth)
        ensures
            r == ResolveDepth::Plain,
    {
        ResolveDepth::Plain
    }
}

/// The identity of a record.
#[derive(Debug, Clone)]
pub struct FormIdStub {
    pub formid: String,
    pub editor_id: Option<String>,
    pub record_type: String,
}

/// The identity of a record as mathematics.
pub struct Stub {
    pub formid: Seq<char>,
    pub editor_id: Option<Seq<char>>,
    pub record_type: Seq<char>,
}

impl View for FormIdStub {
    type V = Stub;

    open spec fn view(&self) -> Stub {
        Stub {
            formid: self.formid@,
            editor_id: crate::schema::opt_text(self.editor_id),
            record_type: self.record_type@,
        }
    }
}

/// Where references are looked up.
pub trait FormIdRefResolver {
    /// The identity of record `id`.
    spec fn stub_of(&self, id: u32) -> Option<Stub>;

    /// The decoded form of record `id`.
    spec fn full_of(&self, id: u32) -> Option<Json>;

    /// Looks up the identity of a record.
    fn stub(&self, id: FormId) -> (r: Option<FormIdStub>)
        ensures
            match r {
                Some(s) => self.stub_of(id.0) == Some(s@),
                None => self.stub_of(id.0) is None,
            },
    ;

    /// Decodes a record.
    fn decode_full(&self, id: FormId) -> (r: Option<Value>)
        ensures
            match r {
                Some(v) => self.full_of(id.0) == Some(v@),
                None => self.full_of(id.0) is None,
            },
    ;
}

/// A resolver that knows no record.
#[derive(Debug, Clone, Copy)]
pub struct NoResolver;

impl FormIdRefResolver for NoResolver {
    open spec fn stub_of(&self, id: u32) -> Option<Stub> {
        None
    }

    open spec fn full_of(&self, id: u32) -> Option<Json> {
        None
    }

    fn stub(&self, id: FormId) -> (r: Option<FormIdStub>) {
        None
    }

    fn decode_full(&self, id: FormId) -> (r: Option<Value>) {
        None
    }
}

/// What the decoder knows beside the bytes.
pub struct DecodeContext<'a, R> {
    pub schema: &'a Schema,
    pub form_version: u16,
    /// Whether text is stored as ids into string tables.
    pub is_localized: bool,
    pub localization: Option<&'a Localization>,
    /// The curves that are put in place of references to them.
    pub curves: Option<&'a CurveIndex>,
    pub resolve_depth: ResolveDepth,
    pub resolver: Option<&'a R>,
    /// The fields of the enclosing struct that are already decoded.
    pub outer_struct: Option<Object>,
    /// The type of the record that is being decoded.
    pub record_signature: Option<&'a str>,
    /// The first character of the record's EditorID.
    pub record_edid_char: Option<char>,
    /// Only subrecords from this place on are taken.
    pub scope_min_doc_index: Option<usize>,
    /// Only subrecords before this place are taken.
    pub scope_max_doc_index: Option<usize>,
}

/// A context as mathematics.
pub struct Env<R> {
    pub form_version: u16,
    pub localized: bool,
    pub strings: Option<Localization>,
    pub curves: Option<CurveIndex>,
    pub depth: ResolveDepth,
    pub resolver: Option<R>,
    pub outer: Option<Entries>,
    pub record: Option<Seq<char>>,
    pub edid: Option<char>,
    pub lo: Option<int>,
    pub hi: Option<int>,
}

/// The number in an optional index.
pub open spec fn opt_int(n: Option<usize>) -> Option<int> {
    match n {
        Some(n) => Some(n as int),
        None => None,
    }
}

/// The value behind an optional reference.
pub open spec fn opt_ref<T>(r: Option<&T>) -> Option<T> {
    match r {
        Some(t) => Some(*t),
        None => None,
    }
}

/// The later of two optional lower bounds.
pub open spec fn later(a: Option<int>, b: Option<int>) -> Option<int> {
    match (a, b) {
        (Some(x), Some(y)) => Some(if x >= y {
            x
        } else {
            y
        }),
        (Some(x), None) => Some(x),
        (None, y) => y,
    }
}

/// The earlier of two optional upper bounds.
pub open spec fn earlier(a: Option<int>, b: Option<int>) -> Option<int> {
    match (a, b) {
        (Some(x), Some(y)) => Some(if x <= y {
            x
        } else {
            y
        }),
        (Some(x), None) => Some(x),
        (None, y) => y,
    }
}

impl<R> Env<R> {
    /// Whether place `doc` is within the scope.
    pub open spec fn in_scope(self, doc: int) -> bool {
        (self.lo matches Some(lo) ==> lo <= doc) && (self.hi matches Some(hi) ==> doc < hi)
    }

    /// This context narrowed to the scope from `lo` to before `hi`.
    pub open spec fn scoped(self, lo: Option<int>, hi: Option<int>) -> Env<R> {
        Env { lo: later(self.lo, lo), hi: earlier(self.hi, hi), ..self }
    }

    /// This context within the struct with the fields `o`.
    pub open spec fn within(self, o: Entries) -> Env<R> {
        Env { outer: Some(o), ..self }
    }
}

impl<'a, R> DecodeContext<'a, R> {
    /// This context as mathematics.
    pub open spec fn env(&self) -> Env<R> {
        Env {
            form_version: self.form_version,
            localized: self.is_localized,
            strings: opt_ref(self.localization),
            curves: opt_ref(self.curves),
            depth: self.resolve_depth,
            resolver: opt_ref(self.resolver),
            outer: match self.outer_struct {
                Some(o) => Some(o@),
                None => None,
            },
            record: match self.record_signature {
                Some(s) => Some(s@),
                None => None,
            },
            edid: self.record_edid_char,
            lo: opt_int(self.scope_min_doc_index),
            hi: opt_int(self.scope_max_doc_index),
        }
    }

    /// The context in which the decoding of a record starts.
    pub fn for_record(
        schema: &'a Schema,
        form_version: u16,
        is_localized: bool,
        localization: Option<&'a Localization>,
        curves: Option<&'a CurveIndex>,
        resolve_depth: ResolveDepth,
        resolver: Option<&'a R>,
    ) -> (r: DecodeContext<'a, R>)
        ensures
            r.schema == schema,
            r.env() == (Env {
                form_version,
                localized: is_localized,
                strings: opt_ref(localization),
                curves: opt_ref(curves),
                depth: resolve_depth,
                resolver: opt_ref(resolver),
                outer: None,
                record: None,
                edid: None,
                lo: None,
                hi: None,
            }),
    {
        DecodeContext {
            schema,
            form_version,
            is_localized,
            localization,
            curves,
            resolve_depth,
            resolver,
            outer_struct: None,
            record_signature: None,
            record_edid_char: None,
            scope_min_doc_index: None,
            scope_max_doc_index: None,
        }
    }

    /// A copy of this context.
    pub fn copy(&self) -> (r: DecodeContext<'a, R>)
        ensures
            r.env() == self.env(),
            r.schema == self.schema,
    {
        DecodeContext {
            schema: self.schema,
            form_version: self.form_version,
            is_localized: self.is_localized,
            localization: self.localization,
            curves: self.curves,
            resolve_depth: self.resolve_depth,
            resolver: self.resolver,
            outer_struct: match &self.outer_struct {
                Some(o) => Some(o.copy()),
                None => None,
            },
            record_signature: self.record_signature,
            record_edid_char: self.record_edid_char,
            scope_min_doc_index: self.scope_min_doc_index,
            scope_max_doc_index: self.scope_max_doc_index,
        }
    }

    /// This context within the struct with the fields `outer`.
    pub fn with_outer_struct(&self, outer: Object) -> (r: DecodeContext<'a, R>)
        ensures
            r.env() == self.env().within(outer@),
            r.schema == self.schema,
    {
        let mut r = self.copy();
        r.outer_struct = Some(outer);
        r
    }

    /// This context narrowed to the scope from `min` to before `max`. The
    /// scope already in effect stays in effect.
    pub fn with_scope(&self, min: Option<usize>, max: Option<usize>) -> (r: DecodeContext<'a, R>)
        ensures
            r.env() == self.env().scoped(opt_int(min), opt_int(max)),
            r.schema == self.schema,
    {
        let mut r = self.copy();
        r.scope_min_doc_index = match (self.scope_min_doc_index, min) {
            (Some(a), Some(b)) => Some(
                if a >= b {
                    a
                } else {
                    b
                },
            ),
            (Some(a), None) => Some(a),
            (None, b) => b,
        };
        r.scope_max_doc_index = match (self.scope_max_doc_index, max) {
            (Some(a), Some(b)) => Some(
                if a <= b {
                    a
                } else {
                    b
                },
            ),
            (Some(a), None) => Some(a),
            (None, b) => b,
        };
        r
    }

    /// Whether place `doc_index` is within the scope.
    pub fn in_scope(&self, doc_index: usize) -> (b: bool)
        ensures
            b == self.env().in_scope(doc_index as int),
    {
        if let Some(min) = self.scope_min_doc_index {
            if doc_index < min {
                return false;
            }
        }
        if let Some(max) = self.scope_max_doc_index {
            if doc_index >= max {
                return false;
            }
        }
        true
    }
}

/// Narrowing a scope never lets a place in that was out of it.
pub proof fn law_scope_narrows<R>(e: Env<R>, lo: Option<int>, hi: Option<int>, doc: int)
    ensures
        e.scoped(lo, hi).in_scope(doc) <==> (e.in_scope(doc) && (lo matches Some(l) ==> l <= doc)
            && (hi matches Some(h) ==> doc < h)),
{
}

/// A text or null.
pub open spec fn opt_json(s: Option<Seq<char>>) -> Json {
    match s {
        Some(s) => Json::Str(s),
        None => Json::Null,
    }
}

/// A text or null.
pub fn opt_value(s: &Option<String>) -> (v: Value)
    ensures
        v@ == opt_json(crate::schema::opt_text(*s)),
{
    match s {
        Some(s) => text(s),
        None => Value::Null,
    }
}

/// A stub as a JSON object.
pub open spec fn stub_json(s: Stub) -> Json {
    Json::Obj(
        obj3(
            "formid"@,
            Json::Str(s.formid),
            "editor_id"@,
            opt_json(s.editor_id),
            "record_type"@,
            Json::Str(s.record_type),
        ),
    )
}

/// A stub as a JSON object.
pub fn stub_value(s: &FormIdStub) -> (v: Value)
    ensures
        v@ == stub_json(s@),
{
    Value::Object(
        Object::new().with("formid", text(&s.formid)).with(
            "editor_id",
            opt_value(&s.editor_id),
        ).with("record_type", text(&s.record_type)),
    )
}

/// A reference as plain text: null for the null FormID.
pub open spec fn plain_ref(id: u32) -> Json {
    if id == 0 {
        Json::Null
    } else {
        Json::Str(hex8(id))
    }
}

/// What a reference to `id` decodes to. `curv` says that the field may refer
/// to a curve: a known curve stands in place of the reference. Otherwise the
/// reference is followed as deep as the context says, where its target is
/// known, and is plain text where not.
pub open spec fn resolved<R: FormIdRefResolver>(e: Env<R>, curv: bool, id: u32) -> Json {
    let curve = match e.curves {
        Some(c) => curve_of(c.curves@, id),
        None => None,
    };
    if curv && curve is Some {
        let c = curve->0;
        Json::Obj(
            obj4(
                "formid"@,
                Json::Str(hex8(id)),
                "editor_id"@,
                opt_json(crate::schema::opt_text(c.edid)),
                "curve_path"@,
                Json::Str(c.path@),
                "curve"@,
                Json::Arr(points_json(c.points@)),
            ),
        )
    } else if e.resolver is Some && e.depth == ResolveDepth::Stub && id != 0
        && e.resolver->0.stub_of(id) is Some {
        stub_json(e.resolver->0.stub_of(id)->0)
    } else if e.resolver is Some && e.depth == ResolveDepth::Full && id != 0
        && e.resolver->0.full_of(id) is Some {
        e.resolver->0.full_of(id)->0
    } else {
        plain_ref(id)
    }
}

/// What a reference to `id` decodes to.
pub fn resolve_formid<R: FormIdRefResolver>(
    ctx: &DecodeContext<'_, R>,
    valid_refs: &Vec<String>,
    id: FormId,
) -> (v: Value)
    ensures
        v@ == resolved(ctx.env(), contains_text(valid_refs@, "CURV"@), id.0),
{
    if list_contains(valid_refs, "CURV") {
        if let Some(curves) = ctx.curves {
            if let Some(curve) = curves.get(id) {
                return Value::Object(
                    Object::new().with("formid", Value::String(id.display())).with(
                        "editor_id",
                        opt_value(&curve.edid),
                    ).with("curve_path", text(&curve.path)).with(
                        "curve",
                        curve_points_value(curve),
                    ),
                );
            }
        }
    }
    if id.0 == 0 {
        return Value::Null;
    }
    if let Some(resolver) = ctx.resolver {
        match ctx.resolve_depth {
            ResolveDepth::Stub => {
                if let Some(stub) = resolver.stub(id) {
                    return stub_value(&stub);
                }
            },
            ResolveDepth::Full => {
                if let Some(full) = resolver.decode_full(id) {
                    return full;
                }
            },
            ResolveDepth::Plain => {},
        }
    }
    Value::String(id.display())
}

} // verus!
