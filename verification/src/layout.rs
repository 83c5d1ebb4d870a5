//! How files, records and names are laid out.
use crate::decode::written::{bytes2, bytes4, holds_at, lemma_bytes2, lemma_bytes4, lemma_split};
use crate::discover::{
    after_last, archives, is_archive, is_plugin, plugins, split_extension, stem, tidied,
};
use crate::format::{tag_text, GroupHeader, RecordHeader};
use crate::order::{law_joined, texts_increase};
use crate::reader::{
    edid_of, find_sig, inline_string_of, inline_text, lemma_find_sig, lstring_id_of, Sub,
};
use crate::text::{before_nul, eq_nocase, hex8, lowercase};
use crate::tree::stub_at;
use vstd::prelude::*;
use vstd::utf8::*;

verus! {

// ── Headers ────────────────────────────────────────────────────────────────
proof fn lemma_whole(data: Seq<u8>)
    ensures
        holds_at(data, 0, data),
{
    assert(data.subrange(0, data.len() as int) =~= data);
}

/// A record's header is its tag, size, flags, FormID, first revision, version
/// and second revision, in this order, and reads as what was written.
pub proof fn law_record_header_reads_back(
    h: RecordHeader,
    tag: Seq<u8>,
    size: u32,
    flags: u32,
    form_id: u32,
    vcs1: u32,
    version: u16,
    vcs2: u16,
    rest: Seq<u8>,
)
    requires
        tag.len() == 4,
    ensures
        ({
            let data = tag + (bytes4(size as int) + (bytes4(flags as int) + (bytes4(
                form_id as int,
            ) + (bytes4(vcs1 as int) + (bytes2(version as int) + (bytes2(vcs2 as int) + rest))))));
            h.reads(data) <==> h.signature.0@ == tag && h.data_size == size && h.flags == flags
                && h.form_id == form_id && h.vcs1 == vcs1 && h.form_version == version && h.vcs2
                == vcs2
        }),
{
    let d6 = bytes2(vcs2 as int) + rest;
    let d5 = bytes2(version as int) + d6;
    let d4 = bytes4(vcs1 as int) + d5;
    let d3 = bytes4(form_id as int) + d4;
    let d2 = bytes4(flags as int) + d3;
    let d1 = bytes4(size as int) + d2;
    let data = tag + d1;
    lemma_whole(data);
    lemma_split(data, 0, tag, d1);
    lemma_split(data, 4, bytes4(size as int), d2);
    lemma_split(data, 8, bytes4(flags as int), d3);
    lemma_split(data, 12, bytes4(form_id as int), d4);
    lemma_split(data, 16, bytes4(vcs1 as int), d5);
    lemma_split(data, 20, bytes2(version as int), d6);
    lemma_split(data, 22, bytes2(vcs2 as int), rest);
    lemma_bytes4(data, 4, size as int);
    lemma_bytes4(data, 8, flags as int);
    lemma_bytes4(data, 12, form_id as int);
    lemma_bytes4(data, 16, vcs1 as int);
    lemma_bytes2(data, 20, version as int);
    lemma_bytes2(data, 22, vcs2 as int);
    assert(data.take(4) =~= tag);
}

/// A group's header is its tag, size, label, type, stamp and one more number,
/// in this order, and reads as what was written; its type has a sign.
pub proof fn law_group_header_reads_back(
    h: GroupHeader,
    tag: Seq<u8>,
    size: u32,
    label: u32,
    kind: u32,
    stamp: u32,
    last: u32,
    rest: Seq<u8>,
)
    requires
        tag.len() == 4,
    ensures
        ({
            let data = tag + (bytes4(size as int) + (bytes4(label as int) + (bytes4(kind as int) + (
            bytes4(stamp as int) + (bytes4(last as int) + rest)))));
            h.reads(data) <==> h.signature.0@ == tag && h.group_size == size && h.label == label
                && h.group_type == (if kind < 0x8000_0000 {
                kind as int
            } else {
                kind - 0x1_0000_0000
            }) && h.stamp == stamp && h.unknown == last
        }),
{
    let d5 = bytes4(last as int) + rest;
    let d4 = bytes4(stamp as int) + d5;
    let d3 = bytes4(kind as int) + d4;
    let d2 = bytes4(label as int) + d3;
    let d1 = bytes4(size as int) + d2;
    let data = tag + d1;
    lemma_whole(data);
    lemma_split(data, 0, tag, d1);
    lemma_split(data, 4, bytes4(size as int), d2);
    lemma_split(data, 8, bytes4(label as int), d3);
    lemma_split(data, 12, bytes4(kind as int), d4);
    lemma_split(data, 16, bytes4(stamp as int), d5);
    lemma_split(data, 20, bytes4(last as int), rest);
    lemma_bytes4(data, 4, size as int);
    lemma_bytes4(data, 8, label as int);
    lemma_bytes4(data, 12, kind as int);
    lemma_bytes4(data, 16, stamp as int);
    lemma_bytes4(data, 20, last as int);
    assert(data.take(4) =~= tag);
}

/// What is shown of a record is its FormID and its type as its header has
/// them, wherever in the file it lies.
pub proof fn law_tree_shows_the_header(
    before: Seq<u8>,
    tag: Seq<u8>,
    size: u32,
    flags: u32,
    form_id: u32,
    rest: Seq<u8>,
    offset: u64,
)
    requires
        tag.len() == 4,
        rest.len() >= 8,
        before.len() == offset,
    ensures
        ({
            let data = before + (tag + (bytes4(size as int) + (bytes4(flags as int) + (bytes4(
                form_id as int,
            ) + rest))));
            let s = stub_at(data, offset);
            &&& s is Some
            &&& s->Some_0.form_id == hex8(form_id)
            &&& s->Some_0.record_type == tag_text(tag)
            &&& s->Some_0.offset == offset
        }),
{
    let d3 = bytes4(form_id as int) + rest;
    let d2 = bytes4(flags as int) + d3;
    let d1 = bytes4(size as int) + d2;
    let d0 = tag + d1;
    let data = before + d0;
    let at = offset as int;
    lemma_whole(data);
    lemma_split(data, 0, before, d0);
    lemma_split(data, at, tag, d1);
    lemma_split(data, at + 4, bytes4(size as int), d2);
    lemma_split(data, at + 8, bytes4(flags as int), d3);
    lemma_split(data, at + 12, bytes4(form_id as int), rest);
    lemma_bytes4(data, at + 12, form_id as int);
    assert(data.subrange(at, at + 4) =~= tag);
}

// ── Subrecords ─────────────────────────────────────────────────────────────
proof fn lemma_at(list: Seq<Sub>, sig: Seq<char>, k: int)
    requires
        0 <= k < list.len(),
        list[k].sig == sig,
        forall|j: int| 0 <= j < k ==> (#[trigger] list[j]).sig != sig,
    ensures
        find_sig(list, sig) == k,
{
    lemma_find_sig(list, sig);
    let i = find_sig(list, sig);
    if i < k {
        assert(list[i].sig != sig);
    }
    if k < i {
        assert(list[k].sig != sig);
    }
}

proof fn lemma_before_nul(t: Seq<u8>, rest: Seq<u8>)
    requires
        !t.contains(0),
    ensures
        before_nul(t + (seq![0u8] + rest)) == t,
        before_nul(t) == t,
    decreases t.len(),
{
    let data = t + (seq![0u8] + rest);
    if t.len() == 0 {
        assert(data[0] == 0);
        assert(before_nul(data) =~= t);
        assert(before_nul(t) =~= t);
    } else {
        assert(t.contains(t[0]));
        let u = t.drop_first();
        if u.contains(0) {
            let i = choose|i: int| 0 <= i < u.len() && u[i] == 0;
            assert(t[i + 1] == 0);
        }
        lemma_before_nul(u, rest);
        assert(data.drop_first() =~= u + (seq![0u8] + rest));
        assert(seq![t[0]] + u =~= t);
    }
}

/// The EditorID of a record is the text before the first zero byte of its
/// first subrecord for it; what follows the zero does not matter.
pub proof fn law_editor_id_is_the_text(list: Seq<Sub>, k: int, t: Seq<u8>, rest: Seq<u8>)
    requires
        0 <= k < list.len(),
        list[k].sig == "EDID"@,
        forall|j: int| 0 <= j < k ==> (#[trigger] list[j]).sig != "EDID"@,
        !t.contains(0),
        list[k].data == t || list[k].data == t + (seq![0u8] + rest),
    ensures
        edid_of(list) == if valid_utf8(t) {
            Some(decode_utf8(t))
        } else {
            None
        },
{
    lemma_at(list, "EDID"@, k);
    lemma_before_nul(t, rest);
}

/// The string id in a subrecord is its first four bytes.
pub proof fn law_string_id_is_the_number(
    list: Seq<Sub>,
    sig: Seq<char>,
    k: int,
    id: u32,
    rest: Seq<u8>,
)
    requires
        0 <= k < list.len(),
        list[k].sig == sig,
        forall|j: int| 0 <= j < k ==> (#[trigger] list[j]).sig != sig,
        list[k].data == bytes4(id as int) + rest,
    ensures
        lstring_id_of(list, sig) == Some(id),
{
    lemma_at(list, sig, k);
    let data = list[k].data;
    lemma_whole(data);
    lemma_split(data, 0, bytes4(id as int), rest);
    lemma_bytes4(data, 0, id as int);
}

/// Where no subrecord has a signature there is no text and no string id of it.
pub proof fn law_no_subrecord_no_text(list: Seq<Sub>, sig: Seq<char>)
    requires
        forall|j: int| 0 <= j < list.len() ==> (#[trigger] list[j]).sig != sig,
    ensures
        lstring_id_of(list, sig) is None,
        inline_string_of(list, sig) is None,
        sig == "EDID"@ ==> edid_of(list) is None,
{
    lemma_find_sig(list, sig);
}

/// The text of a subrecord is that of the first with its signature, unless it
/// is empty.
pub proof fn law_text_of_the_first_subrecord(list: Seq<Sub>, sig: Seq<char>, k: int)
    requires
        0 <= k < list.len(),
        list[k].sig == sig,
        forall|j: int| 0 <= j < k ==> (#[trigger] list[j]).sig != sig,
    ensures
        inline_string_of(list, sig) == if inline_text(list[k].data).len() == 0 {
            None
        } else {
            Some(inline_text(list[k].data))
        },
{
    lemma_at(list, sig, k);
}

// ── Names of files ─────────────────────────────────────────────────────────
proof fn lemma_after_last(head: Seq<char>, c: char, tail: Seq<char>)
    requires
        !tail.contains(c),
    ensures
        after_last(head + seq![c] + tail, c) == head.len() + 1,
    decreases tail.len(),
{
    let s = head + seq![c] + tail;
    if tail.len() == 0 {
        assert(s.last() == c);
    } else {
        assert(tail.contains(tail.last()));
        assert(s.last() == tail.last());
        let u = tail.drop_last();
        if u.contains(c) {
            let i = choose|i: int| 0 <= i < u.len() && u[i] == c;
            assert(tail[i] == c);
        }
        assert(s.drop_last() =~= head + seq![c] + u);
        lemma_after_last(head, c, u);
    }
}

proof fn lemma_no_last(s: Seq<char>, c: char)
    requires
        !s.contains(c),
    ensures
        after_last(s, c) == 0,
    decreases s.len(),
{
    if s.len() > 0 {
        assert(s.contains(s.last()));
        let u = s.drop_last();
        if u.contains(c) {
            let i = choose|i: int| 0 <= i < u.len() && u[i] == c;
            assert(s[i] == c);
        }
        lemma_no_last(u, c);
    }
}

/// A name with something before its last dot is that of a plugin exactly where
/// `esm` follows the dot, whatever the case of its letters.
pub proof fn law_plugin_names(head: Seq<char>, ext: Seq<char>)
    requires
        !ext.contains('.'),
        head.len() > 0,
    ensures
        is_plugin(head + seq!['.'] + ext) == eq_nocase(ext, "esm"@),
{
    lemma_after_last(head, '.', ext);
    let name = head + seq!['.'] + ext;
    assert(name.skip(head.len() as int + 1) =~= ext);
}

/// A name without a dot is not that of a plugin.
pub proof fn law_no_extension_no_plugin(name: Seq<char>)
    requires
        !name.contains('.'),
    ensures
        !is_plugin(name),
{
    lemma_no_last(name, '.');
}

/// The plugins in a folder are all names that are those of plugins, sorted.
pub proof fn law_every_plugin_is_listed(names: Seq<Seq<char>>, n: nat, s: Seq<char>)
    requires
        n <= names.len(),
    ensures
        texts_increase(plugins(names, n)),
        plugins(names, n).contains(s) <==> is_plugin(s) && names.take(n as int).contains(s),
    decreases n,
{
    let now = names.take(n as int);
    if n > 0 {
        law_every_plugin_is_listed(names, (n - 1) as nat, s);
        law_joined(plugins(names, (n - 1) as nat), names[n - 1]);
        lemma_taken(names, n, s);
    } else {
        assert(now.len() == 0);
    }
}

proof fn lemma_taken(names: Seq<Seq<char>>, n: nat, s: Seq<char>)
    requires
        0 < n <= names.len(),
    ensures
        names.take(n as int).contains(s) <==> s == names[n - 1] || names.take(n - 1).contains(s),
{
    let was = names.take(n - 1);
    let now = names.take(n as int);
    if was.contains(s) {
        let i = choose|i: int| 0 <= i < was.len() && was[i] == s;
        assert(now[i] == s);
    }
    if s == names[n - 1] {
        assert(now[n - 1] == s);
    }
    if now.contains(s) {
        let i = choose|i: int| 0 <= i < now.len() && now[i] == s;
        if i < n - 1 {
            assert(was[i] == s);
        }
    }
}

/// The archives in a folder are all names that end in `.ba2` and hold the
/// keyword, whatever the case of their letters, sorted.
pub proof fn law_every_archive_is_listed(
    names: Seq<Seq<char>>,
    keyword: Seq<char>,
    n: nat,
    s: Seq<char>,
)
    requires
        n <= names.len(),
    ensures
        texts_increase(archives(names, keyword, n)),
        archives(names, keyword, n).contains(s) <==> is_archive(s, keyword) && names.take(
            n as int,
        ).contains(s),
    decreases n,
{
    let now = names.take(n as int);
    if n > 0 {
        law_every_archive_is_listed(names, keyword, (n - 1) as nat, s);
        law_joined(archives(names, keyword, (n - 1) as nat), names[n - 1]);
        lemma_taken(names, n, s);
    } else {
        assert(now.len() == 0);
    }
}

/// An archive's name in lower case is some text with the keyword in it, and
/// ends in `.ba2`.
pub proof fn law_archive_names(name: Seq<char>, keyword: Seq<char>)
    ensures
        is_archive(name, keyword) <==> (exists|head: Seq<char>|
            lowercase(name) == #[trigger] (head + ".ba2"@)) && (exists|i: int|
            0 <= i <= lowercase(name).len() - keyword.len() && #[trigger] lowercase(name).subrange(
                i,
                i + keyword.len(),
            ) == keyword),
{
    let low = lowercase(name);
    reveal_strlit(".ba2");
    assert(".ba2"@.len() == 4);
    if low.len() >= 4 && low.skip(low.len() - 4) == ".ba2"@ {
        let head = low.take(low.len() - 4);
        assert(low =~= head + low.skip(low.len() - 4));
        assert(low == head + ".ba2"@);
    }
    if exists|head: Seq<char>| low == #[trigger] (head + ".ba2"@) {
        let head = choose|head: Seq<char>| low == #[trigger] (head + ".ba2"@);
        assert((head + ".ba2"@).skip(head.len() as int) =~= ".ba2"@);
    }
}

/// The name of a plugin in a folder is what stands between the last slash and
/// the last dot of its path.
pub proof fn law_stem_of_a_path(folder: Seq<char>, name: Seq<char>, ext: Seq<char>)
    requires
        name.len() > 0,
        !name.contains('/'),
        ext.len() > 0,
        !ext.contains('/'),
        !ext.contains('.'),
    ensures
        stem(folder + seq!['/'] + (name + seq!['.'] + ext)) == name,
{
    let file = name + seq!['.'] + ext;
    let path = folder + seq!['/'] + file;
    assert(ext.contains(ext.last()));
    assert(path.last() == ext.last());
    assert(tidied(path) == path);
    if file.contains('/') {
        let i = choose|i: int| 0 <= i < file.len() && file[i] == '/';
        if i < name.len() {
            assert(name[i] == '/');
        } else if i > name.len() {
            assert(ext[i - name.len() - 1] == '/');
        }
    }
    lemma_after_last(folder, '/', file);
    assert(path.skip(folder.len() as int + 1) =~= file);
    lemma_after_last(name, '.', ext);
    assert(file.take(name.len() as int) =~= name);
    reveal_strlit(".");
    reveal_strlit("..");
    assert(file.len() >= 3);
    assert("."@.len() == 1 && ".."@.len() == 2);
    assert(split_extension(file).0 == name);
}

} // verus!
