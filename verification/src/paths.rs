//! File paths as texts with `/` between their components.
//!
//! Empty components and `.` components do not count, except for a `.` at the
//! very beginning. Two paths are the same when their components are.

use vstd::prelude::*;

use crate::text::{
    chars_of, concat2, concat3, ends_with, join, joined, lex_less, lowercase, replace, replaced, same,
    split, split_at, starts_with, string_of, strs, text_less, to_lowercase,
};

verus! {

// ── Components ─────────────────────────────────────────────────────────────

/// A path that starts at the root.
pub open spec fn rooted(path: Seq<char>) -> bool {
    path.len() > 0 && path[0] == '/'
}

/// A part of a path counts as a component.
pub open spec fn counts(part: Seq<char>, at: int) -> bool {
    part.len() > 0 && (at == 0 || part != seq!['.'])
}

/// The components among the first `n` parts of a path.
pub open spec fn components_upto(parts: Seq<Seq<char>>, n: int) -> Seq<Seq<char>>
    decreases n,
{
    if n <= 0 {
        seq![]
    } else if counts(parts[n - 1], n - 1) {
        components_upto(parts, n - 1).push(parts[n - 1])
    } else {
        components_upto(parts, n - 1)
    }
}

/// The components of a path.
pub open spec fn components(path: Seq<char>) -> Seq<Seq<char>> {
    let parts = split_at(path, '/');
    components_upto(parts, parts.len() as int)
}

/// Two paths name the same place.
pub open spec fn same_path(a: Seq<char>, b: Seq<char>) -> bool {
    rooted(a) == rooted(b) && components(a) == components(b)
}

/// The components of a path.
pub fn path_components(path: &str) -> (r: Vec<String>)
    ensures
        strs(r@) == components(path@),
{
    let parts = split(path, '/');
    let ghost all = strs(parts@);
    let mut r: Vec<String> = Vec::new();
    let mut i: usize = 0;
    assert(strs(r@) =~= components_upto(all, 0));
    while i < parts.len()
        invariant
            i <= parts@.len(),
            all == strs(parts@),
            strs(r@) == components_upto(all, i as int),
        decreases parts@.len() - i,
    {
        let part = parts[i].clone();
        proof {
            reveal_strlit(".");
            assert("."@ =~= seq!['.']);
        }
        assert(all[i as int] == part@);
        if !part.as_str().is_empty() && (i == 0 || !same(part.as_str(), ".")) {
            crate::text::push_string(&mut r, part);
        }
        i += 1;
    }
    r
}

/// Whether a path starts at the root.
pub fn is_rooted(path: &str) -> (r: bool)
    ensures
        r == rooted(path@),
{
    proof {
        reveal_strlit("/");
    }
    let r = starts_with(path, "/");
    assert("/"@ =~= seq!['/']);
    assert(r ==> path@.subrange(0, 1)[0] == '/');
    assert(rooted(path@) ==> "/"@.is_prefix_of(path@)) by {
        if rooted(path@) {
            assert(path@.subrange(0, 1) =~= seq!['/']);
        }
    }
    r
}

/// Whether two lists hold the same strings in the same order.
pub fn lists_equal(a: &Vec<String>, b: &Vec<String>) -> (r: bool)
    ensures
        r == (strs(a@) == strs(b@)),
{
    if a.len() != b.len() {
        assert(strs(a@).len() != strs(b@).len());
        return false;
    }
    let mut i: usize = 0;
    while i < a.len()
        invariant
            i <= a@.len(),
            a@.len() == b@.len(),
            forall|k: int| 0 <= k < i ==> (#[trigger] a@[k])@ == b@[k]@,
        decreases a@.len() - i,
    {
        if !same(a[i].as_str(), b[i].as_str()) {
            assert(strs(a@)[i as int] != strs(b@)[i as int]);
            return false;
        }
        i += 1;
    }
    assert(strs(a@) =~= strs(b@));
    true
}

/// Whether two paths name the same place.
pub fn paths_equal(a: &str, b: &str) -> (r: bool)
    ensures
        r == same_path(a@, b@),
{
    if is_rooted(a) != is_rooted(b) {
        return false;
    }
    let x = path_components(a);
    let y = path_components(b);
    lists_equal(&x, &y)
}

/// A list of paths names the place of `path`.
pub open spec fn listed(list: Seq<Seq<char>>, path: Seq<char>) -> bool {
    exists|i: int| 0 <= i < list.len() && #[trigger] same_path(list[i], path)
}

/// Whether a list of paths names the place of `path`.
pub fn path_listed(list: &Vec<String>, path: &str) -> (r: bool)
    ensures
        r == listed(strs(list@), path@),
{
    let mut i: usize = 0;
    while i < list.len()
        invariant
            i <= list@.len(),
            forall|k: int| 0 <= k < i ==> !#[trigger] same_path(strs(list@)[k], path@),
        decreases list@.len() - i,
    {
        assert(strs(list@)[i as int] == list@[i as int]@);
        if paths_equal(list[i].as_str(), path) {
            assert(same_path(strs(list@)[i as int], path@));
            return true;
        }
        i += 1;
    }
    false
}

// ── Names ──────────────────────────────────────────────────────────────────

/// The last component of a path, unless it is `.` or `..`.
pub open spec fn file_name_of(path: Seq<char>) -> Option<Seq<char>> {
    let all = components(path);
    if all.len() == 0 || all.last() == seq!['.'] || all.last() == seq!['.', '.'] {
        None
    } else {
        Some(all.last())
    }
}

/// The last component of a path, unless it is `.` or `..`.
pub fn file_name(path: &str) -> (r: Option<String>)
    ensures
        match r {
            Some(name) => file_name_of(path@) == Some(name@),
            None => file_name_of(path@) is None,
        },
{
    let all = path_components(path);
    let n: usize = all.len();
    assert(components(path@).len() == n);
    if n == 0 {
        return None;
    }
    let last = all[n - 1].clone();
    assert(strs(all@).last() == last@);
    proof {
        reveal_strlit(".");
        reveal_strlit("..");
        assert("."@ =~= seq!['.']);
        assert(".."@ =~= seq!['.', '.']);
    }
    if same(last.as_str(), ".") || same(last.as_str(), "..") {
        None
    } else {
        Some(last)
    }
}

/// The place of the last dot in the first `n` characters, if there is one.
pub open spec fn last_dot(name: Seq<char>, n: int) -> Option<int>
    decreases n,
{
    if n <= 0 {
        None
    } else if name[n - 1] == '.' {
        Some(n - 1)
    } else {
        last_dot(name, n - 1)
    }
}

/// The place of the dot before the extension of a file name. A dot at the
/// beginning of the name starts no extension.
pub open spec fn extension_dot(name: Seq<char>) -> Option<int> {
    match last_dot(name, name.len() as int) {
        Some(at) if at > 0 => Some(at),
        _ => None,
    }
}

/// The file name of a path without its extension.
pub open spec fn file_stem_of(path: Seq<char>) -> Option<Seq<char>> {
    match file_name_of(path) {
        Some(name) => Some(
            match extension_dot(name) {
                Some(at) => name.take(at),
                None => name,
            },
        ),
        None => None,
    }
}

/// The extension of a path.
pub open spec fn extension_of(path: Seq<char>) -> Option<Seq<char>> {
    match file_name_of(path) {
        Some(name) => match extension_dot(name) {
            Some(at) => Some(name.skip(at + 1)),
            None => None,
        },
        None => None,
    }
}

fn find_extension_dot(name: &Vec<char>) -> (r: Option<usize>)
    ensures
        match r {
            Some(at) => extension_dot(name@) == Some(at as int) && at < name@.len(),
            None => extension_dot(name@) is None,
        },
{
    let mut n: usize = name.len();
    while n > 0
        invariant
            n <= name@.len(),
            last_dot(name@, n as int) == last_dot(name@, name@.len() as int),
        decreases n,
    {
        if name[n - 1] == '.' {
            if n > 1 {
                return Some(n - 1);
            }
            return None;
        }
        n -= 1;
    }
    None
}

/// The file name of a path without its extension.
pub fn file_stem(path: &str) -> (r: Option<String>)
    ensures
        match r {
            Some(stem) => file_stem_of(path@) == Some(stem@),
            None => file_stem_of(path@) is None,
        },
{
    match file_name(path) {
        Some(name) => {
            let chars = chars_of(name.as_str());
            match find_extension_dot(&chars) {
                Some(at) => {
                    let stem = string_of(&chars, 0, at);
                    assert(stem@ =~= name@.take(at as int));
                    Some(stem)
                },
                None => Some(name),
            }
        },
        None => None,
    }
}

/// The extension of a path.
pub fn extension(path: &str) -> (r: Option<String>)
    ensures
        match r {
            Some(ext) => extension_of(path@) == Some(ext@),
            None => extension_of(path@) is None,
        },
{
    match file_name(path) {
        Some(name) => {
            let chars = chars_of(name.as_str());
            match find_extension_dot(&chars) {
                Some(at) => {
                    let n: usize = chars.len();
                    let ext = string_of(&chars, at + 1, n);
                    assert(ext@ =~= name@.skip(at + 1));
                    Some(ext)
                },
                None => None,
            }
        },
        None => None,
    }
}

/// The extension of a path in lower case; empty where there is none.
pub open spec fn lower_extension_of(path: Seq<char>) -> Seq<char> {
    match extension_of(path) {
        Some(ext) => lowercase(ext),
        None => seq![],
    }
}

/// The extension of a path in lower case; empty where there is none.
pub(crate) fn lower_extension(path: &str) -> (r: String)
    ensures
        r@ == lower_extension_of(path@),
        extension_of(path@) matches Some(ext) ==> (crate::text::all_ascii(ext) ==> r@
            == ext.map_values(|c: char| crate::text::ascii_lower(c))),
{
    match extension(path) {
        Some(ext) => to_lowercase(ext.as_str()),
        None => String::new(),
    }
}

// ── Joining ────────────────────────────────────────────────────────────────

/// `path` seen from `folder`.
pub open spec fn joined_path(folder: Seq<char>, path: Seq<char>) -> Seq<char> {
    if rooted(path) || folder.len() == 0 {
        path
    } else if folder.last() == '/' {
        folder + path
    } else {
        folder + seq!['/'] + path
    }
}

/// `path` seen from `folder`.
pub fn join_path(folder: &str, path: &str) -> (r: String)
    ensures
        r@ == joined_path(folder@, path@),
{
    proof {
        reveal_strlit("/");
        assert("/"@ =~= seq!['/']);
    }
    if is_rooted(path) || folder.is_empty() {
        path.to_owned()
    } else if ends_with(folder, "/") {
        assert(folder@.last() == '/') by {
            assert(folder@.subrange(folder@.len() - 1, folder@.len() as int)[0] == '/');
        }
        concat2(folder, path)
    } else {
        assert(folder@.last() != '/') by {
            if folder@.last() == '/' {
                assert(folder@.subrange(folder@.len() - 1, folder@.len() as int) =~= seq!['/']);
            }
        }
        concat3(folder, "/", path)
    }
}

// ── Order and parents ──────────────────────────────────────────────────────

/// The kinds of components in their order: the root, `.`, `..`, names.
pub open spec fn component_rank(c: Seq<char>) -> int {
    if c == seq!['/'] {
        0
    } else if c == seq!['.'] {
        1
    } else if c == seq!['.', '.'] {
        2
    } else {
        3
    }
}

/// A component stands before another: by its kind, names by their characters.
pub open spec fn component_less(a: Seq<char>, b: Seq<char>) -> bool {
    component_rank(a) < component_rank(b) || (component_rank(a) == component_rank(b) && lex_less(
        a,
        b,
    ))
}

/// A list of components stands before another.
pub open spec fn components_less(a: Seq<Seq<char>>, b: Seq<Seq<char>>) -> bool
    decreases a.len(),
{
    if b.len() == 0 {
        false
    } else if a.len() == 0 {
        true
    } else if a[0] != b[0] {
        component_less(a[0], b[0])
    } else {
        components_less(a.skip(1), b.skip(1))
    }
}

/// The components of a path, the root among them.
pub open spec fn full_components(path: Seq<char>) -> Seq<Seq<char>> {
    if rooted(path) {
        seq![seq!['/']] + components(path)
    } else {
        components(path)
    }
}

/// A path stands before another in the order of their components.
pub open spec fn path_before(a: Seq<char>, b: Seq<char>) -> bool {
    components_less(full_components(a), full_components(b))
}

fn rank_of(c: &str) -> (r: u8)
    ensures
        r == component_rank(c@),
{
    proof {
        reveal_strlit("/");
        reveal_strlit(".");
        reveal_strlit("..");
        assert("/"@ =~= seq!['/']);
        assert("."@ =~= seq!['.']);
        assert(".."@ =~= seq!['.', '.']);
    }
    if same(c, "/") {
        0
    } else if same(c, ".") {
        1
    } else if same(c, "..") {
        2
    } else {
        3
    }
}

fn component_list(path: &str) -> (r: Vec<String>)
    ensures
        strs(r@) == full_components(path@),
{
    let mut all = path_components(path);
    if is_rooted(path) {
        proof {
            reveal_strlit("/");
            assert("/"@ =~= seq!['/']);
        }
        let ghost before = strs(all@);
        all.insert(0, "/".to_string());
        assert(strs(all@) =~= seq![seq!['/']] + before);
    }
    all
}

/// Whether a path stands before another in the order of their components.
pub fn path_less(a: &str, b: &str) -> (r: bool)
    ensures
        r == path_before(a@, b@),
{
    let x = component_list(a);
    let y = component_list(b);
    let ghost p = strs(x@);
    let ghost q = strs(y@);
    let mut i: usize = 0;
    assert(p.skip(0) =~= p && q.skip(0) =~= q);
    while i < x.len() && i < y.len()
        invariant
            i <= x@.len(),
            i <= y@.len(),
            p == strs(x@),
            q == strs(y@),
            p == full_components(a@),
            q == full_components(b@),
            components_less(p.skip(i as int), q.skip(i as int)) == components_less(p, q),
        decreases x@.len() - i,
    {
        assert(p.skip(i as int)[0] == x@[i as int]@);
        assert(q.skip(i as int)[0] == y@[i as int]@);
        if !same(x[i].as_str(), y[i].as_str()) {
            let m = rank_of(x[i].as_str());
            let n = rank_of(y[i].as_str());
            return m < n || (m == n && text_less(x[i].as_str(), y[i].as_str()));
        }
        assert(p.skip(i as int).skip(1) =~= p.skip(i + 1));
        assert(q.skip(i as int).skip(1) =~= q.skip(i + 1));
        i += 1;
    }
    i < y.len()
}

/// The components of a path below a root; all of them where it is not below.
pub open spec fn below(root: Seq<char>, path: Seq<char>) -> Seq<Seq<char>> {
    if rooted(root) == rooted(path) && components(root).is_prefix_of(components(path)) {
        components(path).skip(components(root).len() as int)
    } else {
        full_components(path)
    }
}

/// The text of a list of components.
pub open spec fn components_text(all: Seq<Seq<char>>) -> Seq<char> {
    if all.len() > 0 && all[0] == seq!['/'] {
        seq!['/'] + joined(all.skip(1), "/"@)
    } else {
        joined(all, "/"@)
    }
}

/// The folder of a path below a root; empty for a path directly below it.
pub open spec fn folder_below(root: Seq<char>, path: Seq<char>) -> Seq<char> {
    let all = below(root, path);
    if all.len() == 0 {
        seq![]
    } else {
        replaced(components_text(all.drop_last()), "\\"@, "/"@)
    }
}

fn is_below(root: &Vec<String>, path: &Vec<String>) -> (r: bool)
    ensures
        r == strs(root@).is_prefix_of(strs(path@)),
{
    if root.len() > path.len() {
        assert(strs(root@).len() > strs(path@).len());
        return false;
    }
    let ghost p = strs(root@);
    let ghost q = strs(path@);
    let mut i: usize = 0;
    while i < root.len()
        invariant
            i <= root@.len(),
            root@.len() <= path@.len(),
            p == strs(root@),
            q == strs(path@),
            forall|k: int| 0 <= k < i ==> p[k] == q[k],
        decreases root@.len() - i,
    {
        assert(p[i as int] == root@[i as int]@ && q[i as int] == path@[i as int]@);
        if !same(root[i].as_str(), path[i].as_str()) {
            assert(q.subrange(0, p.len() as int)[i as int] != p[i as int]);
            return false;
        }
        i += 1;
    }
    assert(q.subrange(0, p.len() as int) =~= p);
    true
}

/// The folder of a path below a root, with slashes between its parts; empty for a
/// path directly below it.
pub fn relative_dir(root: &str, path: &str) -> (r: String)
    ensures
        r@ == folder_below(root@, path@),
{
    let base = path_components(root);
    let full = path_components(path);
    let stripped = is_rooted(root) == is_rooted(path) && is_below(&base, &full);
    let all = if stripped {
        full
    } else {
        component_list(path)
    };
    let from: usize = if stripped {
        base.len()
    } else {
        0
    };
    let ghost wanted = below(root@, path@);
    let ghost listed_components = strs(all@);
    assert(wanted =~= listed_components.skip(from as int));
    let n: usize = all.len();
    if n <= from {
        assert(wanted.len() == 0);
        return String::new();
    }
    proof {
        reveal_strlit("/");
        reveal_strlit("\\");
        assert("/"@ =~= seq!['/']);
    }
    let mut parts: Vec<String> = Vec::new();
    let absolute = same(all[from].as_str(), "/");
    let first: usize = if absolute && from + 1 < n {
        from + 1
    } else {
        from
    };
    assert(wanted[0] == all@[from as int]@);
    let mut i: usize = first;
    assert(strs(parts@) =~= listed_components.subrange(first as int, first as int));
    while i < n - 1
        invariant
            first <= i <= n - 1,
            n == all@.len(),
            listed_components == strs(all@),
            strs(parts@) == listed_components.subrange(first as int, i as int),
        decreases n - i,
    {
        crate::text::push_str(&mut parts, all[i].as_str());
        assert(listed_components.subrange(first as int, i + 1) =~= listed_components.subrange(
            first as int,
            i as int,
        ).push(listed_components[i as int]));
        i += 1;
    }
    let ghost kept = wanted.drop_last();
    assert(absolute && from + 1 < n ==> strs(parts@) =~= kept.skip(1));
    assert(!(absolute && from + 1 < n) ==> strs(parts@) =~= kept);
    let text = join(&parts, "/");
    if absolute && from + 1 < n {
        let rooted_text = concat2("/", text.as_str());
        assert(rooted_text@ =~= components_text(kept));
        replace(rooted_text.as_str(), "\\", "/")
    } else {
        assert(text@ =~= components_text(kept)) by {
            if kept.len() > 0 {
                assert(kept[0] == wanted[0]);
            }
        }
        replace(text.as_str(), "\\", "/")
    }
}

} // verus!
