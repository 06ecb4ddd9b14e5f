//! What taking paths apart and putting them together promise.

use vstd::prelude::*;

use crate::paths::{
    components, components_upto, extension_dot, extension_of, file_name_of,
    file_stem_of, folder_below, joined_path, last_dot, rooted,
};
use crate::text::{joined, split_at, split_upto};
use crate::text_laws::law_nothing_to_replace;

verus! {

proof fn lemma_split_of_two(a: Seq<char>, b: Seq<char>, sep: char, k: int)
    requires
        0 <= k <= b.len(),
    ensures
        split_upto(a + seq![sep] + b, sep, a.len() + 1 + k) == split_at(a, sep) + split_upto(
            b,
            sep,
            k,
        ),
        split_upto(b, sep, k).len() > 0,
    decreases k,
{
    let s = a + seq![sep] + b;
    if k == 0 {
        lemma_split_prefix(a, s, sep, a.len() as int);
        assert(s[a.len() as int] == sep);
        assert(split_upto(s, sep, a.len() as int + 1) == split_at(a, sep).push(Seq::<char>::empty()));
        assert(split_at(a, sep) + seq![Seq::<char>::empty()] =~= split_at(a, sep).push(
            Seq::<char>::empty(),
        ));
    } else {
        lemma_split_of_two(a, b, sep, k - 1);
        assert(s[a.len() + k] == b[k - 1]);
        let head = split_at(a, sep);
        let tail = split_upto(b, sep, k - 1);
        let c = b[k - 1];
        if c == sep {
            assert((head + tail).push(Seq::<char>::empty()) =~= head + tail.push(
                Seq::<char>::empty(),
            ));
        } else {
            assert((head + tail).last() == tail.last());
            assert((head + tail).drop_last().push(tail.last().push(c)) =~= head
                + tail.drop_last().push(tail.last().push(c)));
        }
    }
}

proof fn lemma_split_prefix(a: Seq<char>, s: Seq<char>, sep: char, n: int)
    requires
        0 <= n <= a.len(),
        n <= s.len(),
        forall|i: int| 0 <= i < n ==> a[i] == s[i],
    ensures
        split_upto(a, sep, n) == split_upto(s, sep, n),
    decreases n,
{
    if n > 0 {
        lemma_split_prefix(a, s, sep, n - 1);
    }
}

/// Two texts with a separator between them are split into the parts of both.
pub proof fn law_split_of_two(a: Seq<char>, b: Seq<char>, sep: char)
    ensures
        split_at(a + seq![sep] + b, sep) == split_at(a, sep) + split_at(b, sep),
{
    lemma_split_of_two(a, b, sep, b.len() as int);
    assert((a + seq![sep] + b).len() == a.len() + 1 + b.len());
}

/// A text without the separator is one part.
pub proof fn law_split_of_one(a: Seq<char>, sep: char)
    requires
        !a.contains(sep),
    ensures
        split_at(a, sep) == seq![a],
{
    lemma_split_of_one(a, sep, a.len() as int);
    assert(a.take(a.len() as int) =~= a);
}

proof fn lemma_split_of_one(a: Seq<char>, sep: char, n: int)
    requires
        0 <= n <= a.len(),
        !a.contains(sep),
    ensures
        split_upto(a, sep, n) == seq![a.take(n)],
    decreases n,
{
    if n > 0 {
        lemma_split_of_one(a, sep, n - 1);
        assert(a.contains(a[n - 1]));
        assert(a.take(n) =~= a.take(n - 1).push(a[n - 1]));
        assert(split_upto(a, sep, n) =~= seq![a.take(n)]);
    } else {
        assert(a.take(0) =~= seq![]);
    }
}

/// The name of a file: not empty, without a slash, and neither `.` nor `..`.
pub open spec fn is_name(name: Seq<char>) -> bool {
    &&& name.len() > 0
    &&& !name.contains('/')
    &&& name != seq!['.']
    &&& name != seq!['.', '.']
}

/// A file put into a folder keeps its name, whatever the folder.
pub proof fn law_name_in_folder(folder: Seq<char>, name: Seq<char>)
    requires
        is_name(name),
    ensures
        file_name_of(joined_path(folder, name)) == Some(name),
{
    assert(!rooted(name)) by {
        if rooted(name) {
            assert(name.contains(name[0]));
        }
    }
    law_split_of_one(name, '/');
    if folder.len() == 0 {
        lemma_last_part(Seq::<Seq<char>>::empty(), name);
        assert(Seq::<Seq<char>>::empty() + seq![name] =~= seq![name]);
    } else {
        let head = if folder.last() == '/' {
            folder.drop_last()
        } else {
            folder
        };
        assert(joined_path(folder, name) =~= head + seq!['/'] + name);
        law_split_of_two(head, name, '/');
        lemma_last_part(split_at(head, '/'), name);
    }
}

proof fn lemma_last_part(before: Seq<Seq<char>>, name: Seq<char>)
    requires
        is_name(name),
    ensures
        ({
            let parts = before + seq![name];
            let all = components_upto(parts, parts.len() as int);
            all.len() > 0 && all.last() == name
        }),
{
    let parts = before + seq![name];
    assert(parts[parts.len() - 1] == name);
}

/// A file put into a folder lies below it: its folder is the root itself, or what leads
/// from the root to it.
pub proof fn law_folder_below(root: Seq<char>, path: Seq<char>, between: Seq<Seq<char>>, name: Seq<char>)
    requires
        rooted(root) == rooted(path),
        components(path) == components(root) + between.push(name),
        between.len() > 0 ==> between[0] != seq!['/'],
        !joined(between, "/"@).contains('\\'),
    ensures
        folder_below(root, path) == joined(between, "/"@),
{
    reveal_strlit("\\");
    let all = components(path);
    let first = components(root);
    assert(first.is_prefix_of(all)) by {
        assert(all.subrange(0, first.len() as int) =~= first);
    }
    assert(all.skip(first.len() as int) =~= between.push(name));
    assert(between.push(name).drop_last() =~= between);
    let text = joined(between, "/"@);
    assert forall|k: int| 0 <= k && k + "\\"@.len() <= text.len() implies #[trigger] text.subrange(
        k,
        k + "\\"@.len(),
    ) != "\\"@ by {
        assert("\\"@.len() == 1 && "\\"@[0] == '\\');
        assert(text.contains(text[k]));
        assert(text.subrange(k, k + 1)[0] == text[k]);
    }
    law_nothing_to_replace(text, "\\"@, "/"@);
}

/// The stem and the extension of a file make up its name, with a dot between them: the
/// last one, where it is not the first character. A name without such a dot has no
/// extension.
pub proof fn law_stem_and_extension(path: Seq<char>, name: Seq<char>)
    requires
        file_name_of(path) == Some(name),
    ensures
        file_stem_of(path) is Some,
        extension_of(path) is Some ==> {
            &&& file_stem_of(path)->0 + seq!['.'] + extension_of(path)->0 == name
            &&& file_stem_of(path)->0.len() > 0
            &&& !extension_of(path)->0.contains('.')
        },
        extension_of(path) is None ==> {
            &&& file_stem_of(path)->0 == name
            &&& forall|i: int| 0 < i < name.len() ==> #[trigger] name[i] != '.'
        },
{
    lemma_last_dot(name, name.len() as int);
    if let Some(at) = extension_dot(name) {
        assert(name.take(at) + seq!['.'] + name.skip(at + 1) =~= name);
        let ext = name.skip(at + 1);
        if ext.contains('.') {
            let k = choose|k: int| 0 <= k < ext.len() && ext[k] == '.';
            assert(name[at + 1 + k] == '.');
        }
    }
}

proof fn lemma_last_dot(name: Seq<char>, n: int)
    requires
        0 <= n <= name.len(),
    ensures
        match last_dot(name, n) {
            Some(at) => 0 <= at < n && name[at] == '.' && forall|i: int|
                at < i < n ==> #[trigger] name[i] != '.',
            None => forall|i: int| 0 <= i < n ==> #[trigger] name[i] != '.',
        },
    decreases n,
{
    if n > 0 {
        lemma_last_dot(name, n - 1);
    }
}

/// Taking a path of plain names apart gives the names, with or without a slash at its
/// start.
pub proof fn law_components_of_names(parts: Seq<Seq<char>>)
    requires
        parts.len() > 0,
        forall|i: int| 0 <= i < parts.len() ==> is_name(#[trigger] parts[i]),
    ensures
        components(joined(parts, "/"@)) == parts,
        components(seq!['/'] + joined(parts, "/"@)) == parts,
{
    let text = joined(parts, "/"@);
    lemma_split_joined(parts);
    lemma_all_count(parts, 0, parts.len() as int);
    assert(Seq::<char>::empty() + seq!['/'] + text =~= seq!['/'] + text);
    law_split_of_two(Seq::<char>::empty(), text, '/');
    law_split_of_one(Seq::<char>::empty(), '/');
    let more = seq![Seq::<char>::empty()] + parts;
    assert(split_at(seq!['/'] + text, '/') == more);
    lemma_all_count(more, 1, more.len() as int);
    assert(more.subrange(1, more.len() as int) =~= parts);
    assert(parts.subrange(0, parts.len() as int) =~= parts);
}

proof fn lemma_all_count(parts: Seq<Seq<char>>, from: int, n: int)
    requires
        0 <= from <= n <= parts.len(),
        from <= 1,
        from == 1 ==> parts[0].len() == 0,
        forall|i: int| from <= i < parts.len() ==> is_name(#[trigger] parts[i]),
    ensures
        components_upto(parts, n) == parts.subrange(from, n),
    decreases n,
{
    if n > from {
        lemma_all_count(parts, from, n - 1);
        assert(is_name(parts[n - 1]));
        assert(parts.subrange(from, n) =~= parts.subrange(from, n - 1).push(parts[n - 1]));
    } else {
        assert(parts.subrange(from, n) =~= seq![]);
        if n == 1 {
            assert(components_upto(parts, 0) =~= seq![]);
        }
    }
}

proof fn lemma_split_joined(parts: Seq<Seq<char>>)
    requires
        parts.len() > 0,
        forall|i: int| 0 <= i < parts.len() ==> is_name(#[trigger] parts[i]),
    ensures
        split_at(joined(parts, "/"@), '/') == parts,
    decreases parts.len(),
{
    reveal_strlit("/");
    assert("/"@ =~= seq!['/']);
    if parts.len() == 1 {
        assert(joined(parts, "/"@) =~= parts[0]);
        law_split_of_one(parts[0], '/');
        assert(seq![parts[0]] =~= parts);
    } else {
        let head = parts.drop_last();
        let last = parts.last();
        assert forall|i: int| 0 <= i < head.len() implies is_name(#[trigger] head[i]) by {
            assert(head[i] == parts[i]);
        }
        lemma_split_joined(head);
        law_split_of_one(last, '/');
        law_split_of_two(joined(head, "/"@), last, '/');
        assert(joined(parts, "/"@) =~= joined(head, "/"@) + seq!['/'] + last);
        assert(head + seq![last] =~= parts);
    }
}

} // verus!
