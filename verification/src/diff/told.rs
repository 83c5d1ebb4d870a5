//! What a report tells of records, names and keys.
use crate::database::Database;
use crate::decode::context::ResolveDepth;
use crate::diff::array_diff::{diff, no_diff};
use crate::diff::databases::{
    change_refs, float_texts, joined_all, left_out, lone, names_of, stub_refs, verdict, Verdict,
};
use crate::diff::keys::{
    body_of, element_body, key_for, key_of, key_values, path_value, present_name, reference_names,
    wrapper_of,
};
use crate::diff::report::{BodyDetail, DiffOptions, DiffView, NameView, StubView};
use crate::filter::formid_texts;
use crate::formid::{decoded_formid, form_id_of, FormId};
use crate::index::meta_of;
use crate::json::{get, has_key, Entries, Json};
use crate::order::{law_joined, texts_increase};
use crate::picks::{holds_picks, lemma_picked, picked};
use crate::places::{holds_value, law_formid_texts_are_collected};
use crate::reader::{edid_of, inline_string_of, lstring_id_of, subs, RecordMeta, Sub};
use crate::strings::StringKind;
use crate::text::{find_char, hex8, uppercase};
use vstd::prelude::*;

verus! {

// ── Records that one plugin lacks ──────────────────────────────────────────
/// The text of a subrecord: in a localized plugin the string that it refers
/// to, if the plugin's strings are there, and in any other the text it holds.
pub open spec fn told_text(
    db: Database,
    list: Seq<Sub>,
    sig: Seq<char>,
    kind: StringKind,
) -> Option<Seq<char>> {
    if !db.is_localized {
        inline_string_of(list, sig)
    } else if db.localization is Some && lstring_id_of(list, sig) is Some {
        db.localization->Some_0.text_of(kind, lstring_id_of(list, sig)->Some_0)
    } else {
        None
    }
}

/// What is told of a record that the other plugin lacks and whose type is not
/// left out: its FormID, type and place, and where it can be read its
/// EditorID, name, description, and its fields as far as they are asked for.
pub open spec fn told_alone(db: Database, other: Database, opts: DiffOptions) -> spec_fn(
    int,
) -> Option<StubView> {
    |i: int|
        {
            let (id, m) = db.index.metas()[i];
            let unwanted = exists|j: int|
                0 <= j < opts.exclude_types@.len() && uppercase(
                    (#[trigger] opts.exclude_types@[j])@,
                ) == m.signature.text();
            if meta_of(other.index.metas(), id) is Some || unwanted {
                None
            } else {
                match db.esm.at(m.offset) {
                    Some(r) => Some(
                        StubView {
                            form_id: hex8(id),
                            editor_id: edid_of(subs(r.subrecords@)),
                            record_type: m.signature.text(),
                            offset: m.offset,
                            name: told_text(
                                db,
                                subs(r.subrecords@),
                                "FULL"@,
                                StringKind::Strings,
                            ),
                            description: told_text(
                                db,
                                subs(r.subrecords@),
                                "DESC"@,
                                StringKind::DlStrings,
                            ),
                            fields: match opts.bodies {
                                BodyDetail::Omit => None,
                                BodyDetail::Stub => Some(
                                    db.result_of(r, ResolveDepth::Stub).fields,
                                ),
                                BodyDetail::Full => Some(
                                    db.result_of(r, ResolveDepth::Full).fields,
                                ),
                            },
                        },
                    ),
                    None => Some(
                        StubView {
                            form_id: hex8(id),
                            editor_id: None,
                            record_type: m.signature.text(),
                            offset: m.offset,
                            name: None,
                            description: None,
                            fields: None,
                        },
                    ),
                }
            }
        }
}

proof fn lemma_told_alone(db: Database, other: Database, opts: DiffOptions, n: nat)
    requires
        n <= db.index.metas().len(),
    ensures
        lone(db, other, opts, n) == picked(told_alone(db, other, opts), n),
    decreases n,
{
    if n > 0 {
        lemma_told_alone(db, other, opts, (n - 1) as nat);
        let f = told_alone(db, other, opts);
        let x = f(n - 1);
    }
}

/// Every record that the other plugin lacks, and whose type is not left out,
/// is told, in order, and no other.
pub proof fn law_every_lone_record_is_told(db: Database, other: Database, opts: DiffOptions)
    ensures
        ({
            let n = db.index.metas().len();
            holds_picks(lone(db, other, opts, n), told_alone(db, other, opts), n)
        }),
{
    let n = db.index.metas().len();
    lemma_told_alone(db, other, opts, n);
    let _ = lemma_picked(told_alone(db, other, opts), n);
}

// ── Records that both plugins have ─────────────────────────────────────────
/// A changed record is told as the new plugin has it, with its old EditorID
/// where that is another one, and without fields of its own.
pub proof fn law_changed_record_is_told(
    a: Database,
    b: Database,
    opts: DiffOptions,
    id: u32,
    ma: RecordMeta,
    mb: RecordMeta,
    d: DiffView,
    resaved: bool,
)
    requires
        verdict(a, b, opts, id, ma, mb) == Verdict::Changed(d, resaved),
    ensures
        a.esm.at(ma.offset) is Some,
        b.esm.at(mb.offset) is Some,
        ({
            let was = subs(a.esm.at(ma.offset)->Some_0.subrecords@);
            let now = subs(b.esm.at(mb.offset)->Some_0.subrecords@);
            &&& d.stub.form_id == hex8(id)
            &&& d.stub.record_type == mb.signature.text()
            &&& d.stub.offset == mb.offset
            &&& d.stub.editor_id == edid_of(now)
            &&& d.stub.name == told_text(b, now, "FULL"@, StringKind::Strings)
            &&& d.stub.description == told_text(b, now, "DESC"@, StringKind::DlStrings)
            &&& d.stub.fields is None
            &&& d.prev == if edid_of(was) == edid_of(now) {
                None
            } else {
                edid_of(was)
            }
            &&& resaved <==> opts.suppress_noise && ma.form_version != mb.form_version
        }),
{
}

/// Two versions of a record with other bytes that can both be read, and whose
/// types are not left out, are passed over only where their fields do not
/// differ.
pub proof fn law_records_that_are_compared(
    a: Database,
    b: Database,
    opts: DiffOptions,
    id: u32,
    ma: RecordMeta,
    mb: RecordMeta,
)
    requires
        !exists|j: int|
            0 <= j < opts.exclude_types@.len() && (uppercase((#[trigger] opts.exclude_types@[j])@)
                == ma.signature.text() || uppercase(opts.exclude_types@[j]@)
                == mb.signature.text()),
        a.esm.records@.contains_key(ma.offset),
        b.esm.records@.contains_key(mb.offset),
        a.esm.records@[ma.offset].payload@ != b.esm.records@[mb.offset].payload@,
        a.esm.at(ma.offset) is Some,
        b.esm.at(mb.offset) is Some,
    ensures
        verdict(a, b, opts, id, ma, mb) == Verdict::Skip <==> diff(
            a.result_of(a.esm.at(ma.offset)->Some_0, ResolveDepth::Plain).fields,
            b.result_of(b.esm.at(mb.offset)->Some_0, ResolveDepth::Plain).fields,
            float_texts(a, b),
        ) == no_diff(),
{
    if left_out(opts.exclude_types@, ma.signature.text()) {
        let j = choose|j: int|
            0 <= j < opts.exclude_types@.len() && uppercase((#[trigger] opts.exclude_types@[j])@)
                == ma.signature.text();
        assert(uppercase(opts.exclude_types@[j]@) == ma.signature.text());
    }
    if left_out(opts.exclude_types@, mb.signature.text()) {
        let j = choose|j: int|
            0 <= j < opts.exclude_types@.len() && uppercase((#[trigger] opts.exclude_types@[j])@)
                == mb.signature.text();
        assert(uppercase(opts.exclude_types@[j]@) == mb.signature.text());
    }
}

// ── Names ──────────────────────────────────────────────────────────────────
/// What a plugin tells of a FormID that it has a readable record for.
pub open spec fn told_name(db: Database, id: FormId) -> Option<NameView> {
    let m = meta_of(db.index.metas(), id.0);
    let r = db.esm.at(m->Some_0.offset);
    if m is Some && r is Some {
        Some(
            NameView {
                record_type: m->Some_0.signature.text(),
                editor_id: edid_of(subs(r->Some_0.subrecords@)),
                name: told_text(db, subs(r->Some_0.subrecords@), "FULL"@, StringKind::Strings),
                description: told_text(
                    db,
                    subs(r->Some_0.subrecords@),
                    "DESC"@,
                    StringKind::DlStrings,
                ),
            },
        )
    } else {
        None
    }
}

/// The name of a FormID: what the new plugin tells of it, or else the old one.
pub open spec fn told_reference(refs: Seq<Seq<char>>, a: Database, b: Database) -> spec_fn(
    int,
) -> Option<(Seq<char>, NameView)> {
    |i: int|
        match form_id_of(refs[i]) {
            Some(id) => if told_name(b, id) is Some {
                Some((refs[i], told_name(b, id)->Some_0))
            } else if told_name(a, id) is Some {
                Some((refs[i], told_name(a, id)->Some_0))
            } else {
                None
            },
            None => None,
        }
}

proof fn lemma_told_references(refs: Seq<Seq<char>>, a: Database, b: Database, n: nat)
    requires
        n <= refs.len(),
    ensures
        names_of(refs, a, b, n) == picked(told_reference(refs, a, b), n),
    decreases n,
{
    if n > 0 {
        lemma_told_references(refs, a, b, (n - 1) as nat);
        let f = told_reference(refs, a, b);
        let x = f(n - 1);
    }
}

/// Every FormID that leads to a record is told with its name, in order.
pub proof fn law_every_reference_is_told(refs: Seq<Seq<char>>, a: Database, b: Database)
    ensures
        holds_picks(names_of(refs, a, b, refs.len()), told_reference(refs, a, b), refs.len()),
{
    lemma_told_references(refs, a, b, refs.len());
    let _ = lemma_picked(told_reference(refs, a, b), refs.len());
}

proof fn lemma_joined_all(out: Seq<Seq<char>>, more: Seq<Seq<char>>, n: nat, s: Seq<char>)
    requires
        n <= more.len(),
        texts_increase(out),
    ensures
        texts_increase(joined_all(out, more, n)),
        joined_all(out, more, n).contains(s) <==> out.contains(s) || more.take(n as int).contains(
            s,
        ),
    decreases n,
{
    if n > 0 {
        lemma_joined_all(out, more, (n - 1) as nat, s);
        law_joined(joined_all(out, more, (n - 1) as nat), more[n - 1]);
        let was = more.take(n - 1);
        let now = more.take(n as int);
        assert(now =~= was.push(more[n - 1]));
        if was.contains(s) {
            let i = choose|i: int| 0 <= i < was.len() && was[i] == s;
            assert(now[i] == s);
        }
        if s == more[n - 1] {
            assert(now[n - 1] == s);
        }
        if now.contains(s) {
            let i = choose|i: int| 0 <= i < now.len() && now[i] == s;
            if i < n - 1 {
                assert(was[i] == s);
            }
        }
    } else {
        assert(more.take(0).len() == 0);
    }
}

/// The FormIDs in changes are those that stand anywhere in the changes of one
/// of the records, sorted.
pub proof fn law_references_in_changes(list: Seq<DiffView>, n: nat, s: Seq<char>)
    requires
        n <= list.len(),
    ensures
        texts_increase(change_refs(list, n)),
        change_refs(list, n).contains(s) <==> decoded_formid(s) && exists|i: int|
            0 <= i < n && holds_value((#[trigger] list[i]).changes, Json::Str(s)),
    decreases n,
{
    if n > 0 {
        law_references_in_changes(list, (n - 1) as nat, s);
        let v = list[n - 1].changes;
        let more = formid_texts(v, Seq::empty());
        law_formid_texts_are_collected(v, Seq::empty(), s);
        lemma_joined_all(change_refs(list, (n - 1) as nat), more, more.len(), s);
        assert(more.take(more.len() as int) =~= more);
        if holds_value(v, Json::Str(s)) {
            assert(holds_value(list[n - 1].changes, Json::Str(s)));
        }
    }
}

/// The FormIDs in the fields of records are those that stand anywhere in the
/// fields of one of them, besides those already there, sorted.
pub proof fn law_references_in_fields(
    list: Seq<StubView>,
    out: Seq<Seq<char>>,
    n: nat,
    s: Seq<char>,
)
    requires
        n <= list.len(),
        texts_increase(out),
    ensures
        texts_increase(stub_refs(list, out, n)),
        stub_refs(list, out, n).contains(s) <==> out.contains(s) || decoded_formid(s)
            && exists|i: int|
            0 <= i < n && (#[trigger] list[i]).fields is Some && holds_value(
                list[i].fields->Some_0,
                Json::Str(s),
            ),
    decreases n,
{
    if n > 0 {
        law_references_in_fields(list, out, (n - 1) as nat, s);
        if let Some(v) = list[n - 1].fields {
            let more = formid_texts(v, Seq::empty());
            law_formid_texts_are_collected(v, Seq::empty(), s);
            lemma_joined_all(stub_refs(list, out, (n - 1) as nat), more, more.len(), s);
            assert(more.take(more.len() as int) =~= more);
            if holds_value(v, Json::Str(s)) {
                assert(list[n - 1].fields is Some);
            }
        }
    }
}

// ── Keys ───────────────────────────────────────────────────────────────────
/// What a value counts as in a key: the number of a named number, the FormID
/// of a reference, or else the value itself.
pub open spec fn counts_as(v: Json) -> Json {
    match v {
        Json::Obj(o) => if get(o, "value"@) is Some {
            get(o, "value"@)->Some_0
        } else if get(o, "formid"@) is Some {
            get(o, "formid"@)->Some_0
        } else {
            v
        },
        _ => v,
    }
}

proof fn lemma_present(alts: Seq<Seq<char>>, body: Entries, i: nat, j: int)
    requires
        i <= j <= alts.len(),
        j < alts.len() ==> path_value(body, alts[j]) is Some,
        forall|x: int| i <= x < j ==> path_value(body, #[trigger] alts[x]) is None,
    ensures
        present_name(alts, body, i) == j,
    decreases j - i,
{
    if i < j {
        assert(path_value(body, alts[i as int]) is None);
        lemma_present(alts, body, i + 1, j);
    }
}

proof fn lemma_key_values(elem: Json, k: Seq<Seq<Seq<char>>>, n: nat)
    requires
        n <= k.len(),
    ensures
        key_values(elem, k, n).len() == n,
        forall|c: int|
            0 <= c < n ==> #[trigger] key_values(elem, k, n)[c] == crate::diff::keys::canonical(
                crate::diff::keys::component_value(k[c], element_body(elem)),
            ),
    decreases n,
{
    if n > 0 {
        lemma_key_values(elem, k, (n - 1) as nat);
    }
}

/// The key of an element has a value for every component: that at the first of
/// its paths that leads to one, and none where no path does.
pub proof fn law_key_has_every_component(elem: Json, k: Seq<Seq<Seq<char>>>, c: int, j: int)
    requires
        0 <= c < k.len(),
        0 <= j <= k[c].len(),
        j < k[c].len() ==> path_value(element_body(elem), k[c][j]) is Some,
        forall|x: int| 0 <= x < j ==> path_value(element_body(elem), #[trigger] k[c][x]) is None,
    ensures
        key_of(elem, k).len() == k.len(),
        key_of(elem, k)[c] == if j < k[c].len() {
            counts_as(path_value(element_body(elem), k[c][j])->Some_0)
        } else {
            Json::Null
        },
{
    lemma_key_values(elem, k, k.len());
    lemma_present(k[c], element_body(elem), 0, j);
}

/// A path without dots leads to the field of that name, and a path with one to
/// what the rest of it leads to in that field.
pub proof fn law_paths_lead_through_fields(o: Entries, head: Seq<char>, tail: Seq<char>)
    requires
        !head.contains('.'),
    ensures
        path_value(o, head) == get(o, head),
        path_value(o, head + seq!['.'] + tail) == match get(o, head) {
            Some(Json::Obj(inner)) => path_value(inner, tail),
            _ => None,
        },
{
    lemma_no_dot(head);
    let p = head + seq!['.'] + tail;
    lemma_first_dot(head, tail);
    assert(p.take(head.len() as int) =~= head);
    assert(p.skip(head.len() as int + 1) =~= tail);
}

proof fn lemma_no_dot(s: Seq<char>)
    requires
        !s.contains('.'),
    ensures
        find_char(s, '.') == s.len(),
    decreases s.len(),
{
    if s.len() > 0 {
        assert(s.contains(s[0]));
        let t = s.drop_first();
        if t.contains('.') {
            let i = choose|i: int| 0 <= i < t.len() && t[i] == '.';
            assert(s[i + 1] == '.');
        }
        lemma_no_dot(t);
    }
}

proof fn lemma_first_dot(head: Seq<char>, tail: Seq<char>)
    requires
        !head.contains('.'),
    ensures
        find_char(head + seq!['.'] + tail, '.') == head.len(),
    decreases head.len(),
{
    let p = head + seq!['.'] + tail;
    if head.len() > 0 {
        assert(head.contains(head[0]));
        let t = head.drop_first();
        if t.contains('.') {
            let i = choose|i: int| 0 <= i < t.len() && t[i] == '.';
            assert(head[i + 1] == '.');
        }
        lemma_first_dot(t, tail);
        assert(p.drop_first() =~= t + seq!['.'] + tail);
        assert(p[0] == head[0]);
    } else {
        assert(p[0] == '.');
    }
}

/// An element that is one named object is wrapped in that name, and its fields
/// are those of the object; any other element has its own fields.
pub proof fn law_wrapped_element(name: Seq<char>, fields: Entries, o: Entries)
    ensures
        wrapper_of(seq![(name, Json::Obj(fields))]) == Some(name),
        body_of(seq![(name, Json::Obj(fields))]) == fields,
        o.len() != 1 ==> wrapper_of(o) is None && body_of(o) == o,
        o.len() == 1 && !(o[0].1 is Obj) ==> wrapper_of(o) is None && body_of(o) == o,
{
}

/// Which key tells the elements of a list apart. Two elements are the same
/// property of the same kind, the same item at the same level, the same
/// effect, component, item type, objective, stage, attack, faction, perk, mod,
/// keyword with a sound, or alias; and an element that is none of these, has
/// no index and is no named value is known by all references in it.
pub proof fn law_keys_by_shape(o: Entries)
    ensures
        ({
            let w = wrapper_of(o);
            let b = body_of(o);
            let property = has_key(b, "Function Type"@) && has_key(b, "Property"@);
            let item = w == Some("Leveled List Entry"@);
            let effect = w == Some("Effect"@);
            let component = has_key(b, "Component"@);
            let kind = has_key(b, "Item Type"@);
            let part = property || item || effect || component || kind;
            let objective = w == Some("Objective"@);
            let stage = w == Some("Stage"@);
            let attack = w == Some("Attack"@);
            let step = objective || stage || attack;
            let faction = has_key(b, "Faction"@);
            let perk = has_key(b, "Perk"@);
            let made = has_key(b, "Mod"@);
            let sound = has_key(b, "Keyword"@) && has_key(b, "Sound"@);
            let alias = has_key(b, "Alias ID"@);
            let known = faction || perk || made || sound || alias;
            let named = has_key(b, "name"@) && has_key(b, "type"@) && has_key(b, "value"@);
            let refs = reference_names(b, b.len());
            let indexed = exists|i: int| 0 <= i < b.len() && is_index((#[trigger] b[i]).0);
            let k = key_for(o);
            &&& property ==> k == Some(seq![seq!["Function Type"@], seq!["Property"@]])
            &&& item && !property ==> k == Some(
                seq![seq!["Reference"@, "Item"@], seq!["Minimum Level"@, "Level"@]],
            )
            &&& effect && !property ==> k == Some(seq![seq!["Base Effect"@]])
            &&& component && !property && !item && !effect ==> k == Some(seq![seq!["Component"@]])
            &&& kind && !property && !item && !effect && !component ==> k == Some(
                seq![seq!["Item Type"@]],
            )
            &&& objective && !part ==> k == Some(seq![seq!["Objective Index"@]])
            &&& stage && !part ==> k == Some(seq![seq!["INDX.Stage Index"@]])
            &&& attack && !part ==> k == Some(seq![seq!["Attack Event"@]])
            &&& faction && !part && !step ==> k == Some(seq![seq!["Faction"@]])
            &&& perk && !part && !step && !faction ==> k == Some(seq![seq!["Perk"@]])
            &&& made && !part && !step && !faction && !perk ==> k == Some(seq![seq!["Mod"@]])
            &&& sound && !part && !step && !faction && !perk && !made ==> k == Some(
                seq![seq!["Keyword"@]],
            )
            &&& alias && !part && !step && !faction && !perk && !made && !sound ==> k == Some(
                seq![seq!["Alias ID"@]],
            )
            &&& indexed && !part && !step && !known ==> exists|i: int|
                0 <= i < b.len() && is_index((#[trigger] b[i]).0) && k == Some(seq![seq![b[i].0]])
                    && forall|j: int| 0 <= j < i ==> !is_index((#[trigger] b[j]).0)
            &&& named && !indexed && !part && !step && !known ==> k == Some(seq![seq!["name"@]])
            &&& !named && !indexed && !part && !step && !known ==> k == if refs.len() > 0 {
                Some(refs)
            } else {
                None
            }
        }),
{
    lemma_wrappers_differ();
    lemma_first_index(body_of(o), 0);
}

/// Whether a name is that of an index: `Index`, or with that as its last word.
pub open spec fn is_index(k: Seq<char>) -> bool {
    k == "Index"@ || exists|head: Seq<char>| k == #[trigger] (head + " Index"@)
}

proof fn lemma_index_name(k: Seq<char>)
    ensures
        crate::diff::keys::index_name(k) == is_index(k),
{
    reveal_strlit(" Index");
    assert(" Index"@.len() == 6);
    if k.len() >= 6 && k.skip(k.len() - 6) == " Index"@ {
        let head = k.take(k.len() - 6);
        assert(k =~= head + k.skip(k.len() - 6));
        assert(k == head + " Index"@);
    }
    if exists|head: Seq<char>| k == #[trigger] (head + " Index"@) {
        let head = choose|head: Seq<char>| k == #[trigger] (head + " Index"@);
        assert((head + " Index"@).skip(head.len() as int) =~= " Index"@);
    }
}

proof fn lemma_first_index(o: Entries, i: nat)
    requires
        i <= o.len(),
    ensures
        match crate::diff::keys::first_index(o, i) {
            Some(k) => exists|j: int|
                i <= j < o.len() && (#[trigger] o[j]).0 == k && is_index(k) && forall|x: int|
                    i <= x < j ==> !is_index((#[trigger] o[x]).0),
            None => forall|j: int| i <= j < o.len() ==> !is_index((#[trigger] o[j]).0),
        },
    decreases o.len() - i,
{
    if i < o.len() {
        lemma_index_name(o[i as int].0);
        lemma_first_index(o, i + 1);
        if is_index(o[i as int].0) {
            assert(o[i as int].0 == o[i as int].0);
        }
    }
}

proof fn lemma_wrappers_differ()
    ensures
        "Leveled List Entry"@ != "Effect"@,
        "Objective"@ != "Stage"@,
        "Objective"@ != "Attack"@,
        "Stage"@ != "Attack"@,
{
    reveal_strlit("Leveled List Entry");
    reveal_strlit("Effect");
    reveal_strlit("Objective");
    reveal_strlit("Stage");
    reveal_strlit("Attack");
    assert("Leveled List Entry"@.len() == 18 && "Effect"@.len() == 6);
    assert("Objective"@.len() == 9 && "Stage"@.len() == 5 && "Attack"@.len() == 6);
}

/// A field that is a reference: a FormID, or what a FormID leads to.
pub open spec fn reference_field(o: Entries) -> spec_fn(int) -> Option<Seq<Seq<char>>> {
    |i: int|
        match o[i].1 {
            Json::Str(s) => if decoded_formid(s) {
                Some(seq![o[i].0])
            } else {
                None
            },
            Json::Obj(x) => if get(x, "formid"@) is Some {
                Some(seq![o[i].0])
            } else {
                None
            },
            _ => None,
        }
}

proof fn lemma_reference_fields(o: Entries, n: nat)
    requires
        n <= o.len(),
    ensures
        reference_names(o, n) == picked(reference_field(o), n),
    decreases n,
{
    if n > 0 {
        lemma_reference_fields(o, (n - 1) as nat);
    }
}

/// An element that is known by its references is known by all of them.
pub proof fn law_every_reference_is_in_the_key(o: Entries)
    ensures
        holds_picks(reference_names(o, o.len()), reference_field(o), o.len()),
{
    lemma_reference_fields(o, o.len());
    let _ = lemma_picked(reference_field(o), o.len());
}

} // verus!
