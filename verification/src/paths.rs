//! Slash-separated paths: which relative paths are safe to place under a root,
//! how paths are joined, and the file name and extension of a path.

use crate::text;
use vstd::prelude::*;
use vstd::string::StringExecFns;

verus! {

/// Why a relative path is not acceptable.
#[derive(Clone, Copy, Debug, PartialEq, Eq, Structural)]
pub enum PathFault {
    Empty,
    Backslash,
    Absolute,
    UnsafeComponent,
}

/// A relative path that was rejected, with the part it was meant for.
#[derive(Debug)]
pub struct PathError {
    pub label: String,
    pub value: String,
    pub fault: PathFault,
}

#[verifier::ext_equal]
pub struct PathErrorView {
    pub label: Seq<char>,
    pub value: Seq<char>,
    pub fault: PathFault,
}

impl DeepView for PathError {
    type V = PathErrorView;

    open spec fn deep_view(&self) -> PathErrorView {
        PathErrorView { label: self.label@, value: self.value@, fault: self.fault }
    }
}

/// Whether a `..` component stands at position `i`.
pub open spec fn parent_at(s: Seq<char>, i: int) -> bool {
    &&& 0 <= i && i + 2 <= s.len()
    &&& s[i] == '.' && s[i + 1] == '.'
    &&& (i == 0 || s[i - 1] == '/')
    &&& (i + 2 == s.len() || s[i + 2] == '/')
}

/// Whether some component of a path is `..`.
pub open spec fn climbs(s: Seq<char>) -> bool {
    exists|i: int| #[trigger] parent_at(s, i)
}

/// Whether the first component of a path is `.`.
pub open spec fn leads_with_dot(s: Seq<char>) -> bool {
    s.len() > 0 && s[0] == '.' && (s.len() == 1 || s[1] == '/')
}

/// What is wrong with a relative path, if anything.
pub open spec fn fault_of(s: Seq<char>) -> Option<PathFault> {
    if s.len() == 0 {
        Some(PathFault::Empty)
    } else if s.contains('\\') {
        Some(PathFault::Backslash)
    } else if s[0] == '/' {
        Some(PathFault::Absolute)
    } else if leads_with_dot(s) || climbs(s) {
        Some(PathFault::UnsafeComponent)
    } else {
        None
    }
}

/// A root without the separators at its end; the file system's own root keeps one.
pub open spec fn base_of(root: Seq<char>) -> Seq<char> {
    let base = text::trim_end_char(root, '/');
    if base.len() == 0 && root.len() > 0 {
        seq!['/']
    } else {
        base
    }
}

/// What every path below a base begins with.
pub open spec fn folder(base: Seq<char>) -> Seq<char> {
    if base.len() == 0 || base.last() == '/' {
        base
    } else {
        base.push('/')
    }
}

/// A path with one more relative part at its end.
pub open spec fn pushed(base: Seq<char>, part: Seq<char>) -> Seq<char> {
    folder(base) + part
}

/// The labelled parts below a root, joined; or the first part that is rejected.
pub open spec fn joined(root: Seq<char>, parts: Seq<(Seq<char>, Seq<char>)>) -> Result<
    Seq<char>,
    PathErrorView,
>
    decreases parts.len(),
{
    if parts.len() == 0 {
        Ok(base_of(root))
    } else {
        match joined(root, parts.drop_last()) {
            Err(e) => Err(e),
            Ok(base) => match fault_of(parts.last().1) {
                Some(fault) => Err(
                    PathErrorView { label: parts.last().0, value: parts.last().1, fault },
                ),
                None => Ok(pushed(base, parts.last().1)),
            },
        }
    }
}

/// A path without the separators and `.` components at its end.
pub open spec fn stripped(s: Seq<char>) -> Seq<char>
    decreases s.len(),
{
    if s.len() > 0 && s.last() == '/' {
        stripped(s.drop_last())
    } else if s.len() >= 2 && s.last() == '.' && s[s.len() - 2] == '/' {
        stripped(s.drop_last())
    } else {
        s
    }
}

/// The final component of a path, unless that is a root, `.` or `..`.
pub open spec fn file_name(s: Seq<char>) -> Option<Seq<char>> {
    let t = stripped(s);
    let last = text::after_last(t, '/');
    if t.len() == 0 || last == seq!['.'] || last == seq!['.', '.'] {
        None
    } else {
        Some(last)
    }
}

/// What follows the last dot of the file name, unless the name starts with it.
pub open spec fn extension(s: Seq<char>) -> Option<Seq<char>> {
    match file_name(s) {
        None => None,
        Some(name) => if text::last_index(name, '.') > 0 {
            Some(text::after_last(name, '.'))
        } else {
            None
        },
    }
}

/// Whether `path` is `root` or lies below it (one closing separator of `root`
/// aside).
pub open spec fn under(path: Seq<char>, root: Seq<char>) -> bool {
    let base = text::trim_end_char(root, '/');
    path == base || text::begins(path, base.push('/'))
}

/// Whatever follows a root and a separator lies under the root, and so does the root
/// itself; what lies under it is one of these. A name that merely begins like the
/// root does not lie under it.
pub proof fn law_under_is_at_or_below(root: Seq<char>, rest: Seq<char>, path: Seq<char>)
    requires
        root.len() > 0 && root.last() != '/',
    ensures
        under(root, root),
        under(root + "/"@ + rest, root),
        under(path, root) ==> path == root || (path.len() > root.len() && path.take(
            root.len() as int,
        ) == root && path[root.len() as int] == '/'),
        rest.len() > 0 && rest[0] != '/' ==> !under(root + rest, root),
{
    reveal_strlit("/");
    assert(text::trim_end_char(root, '/') == root);
    let lead = root.push('/');
    let below = root + "/"@ + rest;
    assert(below.take(lead.len() as int) =~= lead);
    if under(path, root) && path != root {
        assert(path.take(lead.len() as int)[root.len() as int] == '/');
        assert(path.take(root.len() as int) =~= path.take(lead.len() as int).take(
            root.len() as int,
        ));
        assert(lead.take(root.len() as int) =~= root);
    }
    if rest.len() > 0 && rest[0] != '/' && under(root + rest, root) {
        let p = root + rest;
        assert(p[root.len() as int] == rest[0]);
        assert(p.take(lead.len() as int)[root.len() as int] == '/');
    }
}

proof fn lemma_after_last(s: Seq<char>, n: int, c: char)
    requires
        0 <= n <= s.len(),
        n == 0 || s[n - 1] == c,
        forall|k: int| n <= k < s.len() ==> s[k] != c,
    ensures
        text::last_index(s, c) == n - 1,
        text::after_last(s, c) == s.skip(n),
    decreases s.len(),
{
    if s.len() > n {
        assert(s.last() != c);
        lemma_after_last(s.drop_last(), n, c);
    } else if n > 0 {
        assert(s.last() == c);
    }
}

/// The file name of a path is its last component, whatever stands before it; and its
/// extension is what follows the last dot of that, as long as something stands before
/// the dot.
pub proof fn law_file_name_is_the_last_component(dir: Seq<char>, name: Seq<char>)
    requires
        name.len() > 0,
        !name.contains('/'),
        name != seq!['.'],
        name != seq!['.', '.'],
    ensures
        file_name(dir + "/"@ + name) == Some(name),
        file_name(name) == Some(name),
        extension(dir + "/"@ + name) == extension(name),
{
    reveal_strlit("/");
    let s = dir + "/"@ + name;
    let n = dir.len() as int + 1;
    assert forall|k: int| 0 <= k < name.len() implies name[k] != '/' by {
        assert(name.contains(name[k]));
    }
    assert(s.last() == name.last());
    assert(name.last() == name[name.len() - 1]);
    if name.len() == 1 {
        assert(name =~= seq![name[0]]);
    } else {
        assert(s[s.len() - 2] == name[name.len() - 2]);
    }
    assert(stripped(s) == s);
    assert(stripped(name) == name);
    assert(s[n - 1] == '/');
    assert forall|k: int| n <= k < s.len() implies s[k] != '/' by {
        assert(s[k] == name[k - n]);
    }
    lemma_after_last(s, n, '/');
    assert(s.skip(n) =~= name);
    lemma_after_last(name, 0, '/');
    assert(name.skip(0) =~= name);
}

/// The extension of a name with a dot that is not its first character is what
/// follows the last dot; a name without one has none.
pub proof fn law_extension_follows_the_last_dot(stem: Seq<char>, ext: Seq<char>)
    requires
        stem.len() > 0,
        !stem.contains('/') && !ext.contains('/'),
        !ext.contains('.'),
        ext.len() > 0,
    ensures
        extension(stem + "."@ + ext) == Some(ext),
        extension(ext) is None,
{
    reveal_strlit(".");
    let s = stem + "."@ + ext;
    let n = stem.len() as int + 1;
    assert forall|k: int| 0 <= k < ext.len() implies ext[k] != '.' && ext[k] != '/' by {
        assert(ext.contains(ext[k]));
    }
    assert(!s.contains('/')) by {
        if s.contains('/') {
            let k = choose|k: int| 0 <= k < s.len() && s[k] == '/';
            if k < stem.len() {
                assert(stem.contains(stem[k]));
            } else if k >= n {
                assert(s[k] == ext[k - n]);
            }
        }
    }
    assert(s.len() >= 3);
    law_file_name_is_the_last_component(Seq::empty(), s);
    assert(s[n - 1] == '.');
    assert forall|k: int| n <= k < s.len() implies s[k] != '.' by {
        assert(s[k] == ext[k - n]);
    }
    lemma_after_last(s, n, '.');
    assert(s.skip(n) =~= ext);
    assert(ext[0] != '.');
    law_file_name_is_the_last_component(Seq::empty(), ext);
    lemma_after_last(ext, 0, '.');
}

/// Whether a component of a path is `..`.
pub open spec fn has_dotdot(s: Seq<char>) -> bool {
    text::split(s, '/').contains(seq!['.', '.'])
}

proof fn lemma_split_piece(s: Seq<char>, sep: char, i: int, j: int)
    requires
        0 <= i <= j <= s.len(),
        i == 0 || s[i - 1] == sep,
        j == s.len() || s[j] == sep,
        forall|k: int| i <= k < j ==> s[k] != sep,
    ensures
        text::split(s, sep).contains(s.subrange(i, j)),
    decreases s.len(),
{
    text::lemma_first_index(s, sep);
    let f = text::first_index(s, sep);
    let parts = text::split(s, sep);
    if i == 0 {
        text::lemma_first_index_is(s, sep, j);
        if j < s.len() {
            assert(parts[0] == s.take(j));
            assert(s.take(j) =~= s.subrange(i, j));
        } else {
            assert(s.subrange(i, j) =~= s);
            assert(parts[0] == s);
        }
    } else {
        assert(f < i);
        let rest = s.skip(f + 1);
        assert forall|k: int| i - f - 1 <= k < j - f - 1 implies rest[k] != sep by {
            assert(rest[k] == s[k + f + 1]);
        }
        lemma_split_piece(rest, sep, i - f - 1, j - f - 1);
        let piece = rest.subrange(i - f - 1, j - f - 1);
        assert(piece =~= s.subrange(i, j));
        let more = text::split(rest, sep);
        let n = choose|n: int| 0 <= n < more.len() && more[n] == piece;
        assert(parts == seq![s.take(f)] + more);
        assert(parts[n + 1] == piece);
    }
}

proof fn lemma_piece_splits(s: Seq<char>, sep: char, n: int) -> (r: (int, int))
    requires
        0 <= n < text::split(s, sep).len(),
    ensures
        0 <= r.0 <= r.1 <= s.len(),
        r.0 == 0 || s[r.0 - 1] == sep,
        r.1 == s.len() || s[r.1] == sep,
        text::split(s, sep)[n] == s.subrange(r.0, r.1),
    decreases s.len(),
{
    text::lemma_first_index(s, sep);
    let f = text::first_index(s, sep);
    if f < s.len() {
        let rest = s.skip(f + 1);
        assert(text::split(s, sep) == seq![s.take(f)] + text::split(rest, sep));
        if n == 0 {
            assert(s.take(f) =~= s.subrange(0, f));
            (0, f)
        } else {
            let (i, j) = lemma_piece_splits(rest, sep, n - 1);
            assert(text::split(s, sep)[n] == text::split(rest, sep)[n - 1]);
            assert(rest.subrange(i, j) =~= s.subrange(i + f + 1, j + f + 1));
            if j < rest.len() {
                assert(rest[j] == s[j + f + 1]);
            }
            if i > 0 {
                assert(rest[i - 1] == s[i + f]);
            }
            (i + f + 1, j + f + 1)
        }
    } else {
        assert(s.subrange(0, s.len() as int) =~= s);
        (0, s.len() as int)
    }
}

/// A path climbs exactly where one of its components is `..`.
pub proof fn law_climbing_is_by_components(s: Seq<char>)
    ensures
        climbs(s) <==> has_dotdot(s),
{
    if climbs(s) {
        let i = choose|i: int| #[trigger] parent_at(s, i);
        lemma_split_piece(s, '/', i, i + 2);
        assert(s.subrange(i, i + 2) =~= seq!['.', '.']);
    }
    if has_dotdot(s) {
        let parts = text::split(s, '/');
        let n = choose|n: int| 0 <= n < parts.len() && parts[n] == seq!['.', '.'];
        let (i, j) = lemma_piece_splits(s, '/', n);
        let piece = s.subrange(i, j);
        assert(piece.len() == 2 && piece[0] == '.' && piece[1] == '.');
        assert(s[i] == piece[0] && s[i + 1] == piece[1]);
        assert(parent_at(s, i));
    }
}

/// A relative path is accepted exactly where it is not empty, holds no backslash,
/// begins with no separator and no `.` component, and has no `..` component.
pub proof fn law_accepted_paths_are_plain(s: Seq<char>)
    ensures
        fault_of(s) is None <==> s.len() > 0 && !s.contains('\\') && s[0] != '/' && text::split(
            s,
            '/',
        )[0] != seq!['.'] && !has_dotdot(s),
        s.len() == 0 ==> fault_of(s) == Some(PathFault::Empty),
        s.contains('\\') ==> fault_of(s) == Some(PathFault::Backslash),
        s.len() > 0 && !s.contains('\\') && s[0] == '/' ==> fault_of(s) == Some(
            PathFault::Absolute,
        ),
{
    law_climbing_is_by_components(s);
    text::lemma_first_index(s, '/');
    let f = text::first_index(s, '/');
    let parts = text::split(s, '/');
    if f < s.len() {
        assert(parts[0] == s.take(f));
    } else {
        assert(parts[0] == s);
    }
    if leads_with_dot(s) {
        if s.len() == 1 {
            assert(s =~= seq!['.']);
            text::lemma_first_index_is(s, '/', 1);
        } else {
            text::lemma_first_index_is(s, '/', 1);
            assert(s.take(1) =~= seq!['.']);
        }
    }
    if parts[0] == seq!['.'] {
        assert(parts[0].len() == 1 && parts[0][0] == '.');
        assert(s[0] == '.');
    }
}

pub proof fn lemma_climbs_join(a: Seq<char>, b: Seq<char>)
    requires
        climbs(a + b),
        a.len() == 0 || a.last() == '/' || (b.len() > 0 && b[0] == '/'),
    ensures
        climbs(a) || climbs(b),
{
    let s = a + b;
    let i = choose|i: int| #[trigger] parent_at(s, i);
    let n = a.len() as int;
    if i + 2 <= n {
        assert(parent_at(a, i));
    } else if i >= n {
        assert(parent_at(b, i - n));
    } else {
        assert(s[i] == a[i] && i == n - 1);
        assert(s[i + 1] == b[0]);
    }
}

/// A joined path lies below the root, and what follows the root never climbs
/// back: no `..` component comes from the parts.
pub proof fn law_joined_stays_under_root(root: Seq<char>, parts: Seq<(Seq<char>, Seq<char>)>)
    requires
        joined(root, parts) is Ok,
    ensures
        ({
            let base = base_of(root);
            let out = joined(root, parts)->Ok_0;
            &&& text::begins(out, base)
            &&& !climbs(out.skip(base.len() as int))
            &&& parts.len() > 0 ==> text::begins(out, folder(base))
        }),
    decreases parts.len(),
{
    let base = base_of(root);
    let out = joined(root, parts)->Ok_0;
    if parts.len() == 0 {
        assert(out.take(base.len() as int) =~= base);
        assert(out.skip(base.len() as int) =~= Seq::<char>::empty());
    } else {
        law_joined_stays_under_root(root, parts.drop_last());
        let before = joined(root, parts.drop_last())->Ok_0;
        let part = parts.last().1;
        let rest = before.skip(base.len() as int);
        let lead = folder(base);
        assert(before =~= base + rest);
        assert(out.take(base.len() as int) =~= base);
        if parts.drop_last().len() == 0 {
            assert(before =~= base);
            assert(out.take(lead.len() as int) =~= lead);
        } else {
            assert(before.take(lead.len() as int) == lead);
            assert(out.take(lead.len() as int) =~= before.take(lead.len() as int));
        }
        if before.len() == 0 || before.last() == '/' {
            assert(out.skip(base.len() as int) =~= rest + part);
            if climbs(rest + part) {
                lemma_climbs_join(rest, part);
            }
        } else {
            let tail = seq!['/'] + part;
            assert(out.skip(base.len() as int) =~= rest + tail);
            if climbs(rest + tail) {
                lemma_climbs_join(rest, tail);
                if climbs(tail) {
                    lemma_climbs_join(seq!['/'], part);
                    let one = seq!['/'];
                    if climbs(one) {
                        let i = choose|i: int| #[trigger] parent_at(one, i);
                        assert(i + 2 <= 1);
                    }
                }
            }
        }
    }
}

impl PathError {
    /// The rejection in words.
    pub fn message(&self) -> (r: String)
        ensures
            r@ == path_message(self.deep_view()),
    {
        match self.fault {
            PathFault::Empty => text::concat2(self.label.as_str(), " is empty"),
            PathFault::Backslash => text::concat3(
                self.label.as_str(),
                " contains a backslash: ",
                self.value.as_str(),
            ),
            PathFault::Absolute => text::concat3(
                self.label.as_str(),
                " is absolute: ",
                self.value.as_str(),
            ),
            PathFault::UnsafeComponent => text::concat3(
                self.label.as_str(),
                " contains an unsafe path component: ",
                self.value.as_str(),
            ),
        }
    }
}

/// The words of a rejection.
pub open spec fn path_message(e: PathErrorView) -> Seq<char> {
    match e.fault {
        PathFault::Empty => e.label + " is empty"@,
        PathFault::Backslash => e.label + " contains a backslash: "@ + e.value,
        PathFault::Absolute => e.label + " is absolute: "@ + e.value,
        PathFault::UnsafeComponent => e.label + " contains an unsafe path component: "@ + e.value,
    }
}

/// A rejection names the path's label first, and the path itself wherever there is
/// one; no two kinds of rejection read alike.
pub proof fn law_rejections_name_the_path(e: PathErrorView, fault: PathFault)
    ensures
        text::begins(path_message(e), e.label),
        !(e.fault is Empty) ==> text::finishes(path_message(e), ": "@ + e.value),
        fault != e.fault ==> path_message(e) != path_message(PathErrorView { fault, ..e }),
{
    reveal_strlit(" is empty");
    reveal_strlit(" contains a backslash: ");
    reveal_strlit(" is absolute: ");
    reveal_strlit(" contains an unsafe path component: ");
    reveal_strlit(": ");
    let n = e.label.len() as int;
    let m = path_message(e);
    let o = path_message(PathErrorView { fault, ..e });
    let empty = " is empty"@;
    let back = " contains a backslash: "@;
    let absolute = " is absolute: "@;
    let bad = " contains an unsafe path component: "@;
    assert(empty[4] == 'e' && back[1] == 'c' && absolute[4] == 'a' && bad[1] == 'c');
    assert(empty[1] == 'i' && absolute[1] == 'i');
    assert(back[11] == ' ' && bad[11] == 'n');
    assert(m.take(n) =~= e.label);
    assert(m[n + 1] == (match e.fault {
        PathFault::Empty => 'i',
        PathFault::Backslash => 'c',
        PathFault::Absolute => 'i',
        PathFault::UnsafeComponent => 'c',
    }));
    assert(o[n + 1] == (match fault {
        PathFault::Empty => 'i',
        PathFault::Backslash => 'c',
        PathFault::Absolute => 'i',
        PathFault::UnsafeComponent => 'c',
    }));
    assert(e.fault is Empty || e.fault is Absolute ==> m[n + 4] == (if e.fault is Empty {
        'e'
    } else {
        'a'
    }));
    assert(fault is Empty || fault is Absolute ==> o[n + 4] == (if fault is Empty {
        'e'
    } else {
        'a'
    }));
    assert(e.fault is Backslash || e.fault is UnsafeComponent ==> m[n + 11] == (
    if e.fault is Backslash {
        ' '
    } else {
        'n'
    }));
    assert(fault is Backslash || fault is UnsafeComponent ==> o[n + 11] == (
    if fault is Backslash {
        ' '
    } else {
        'n'
    }));
    let tail = ": "@ + e.value;
    if !(e.fault is Empty) {
        assert(m.skip(m.len() - tail.len()) =~= tail);
    }
}

/// Whether some component is `..`.
pub fn has_parent(chars: &[char]) -> (r: bool)
    ensures
        r == climbs(chars@),
{
    let n: usize = chars.len();
    let mut i: usize = 0;
    while i < n
        invariant
            i <= n,
            n == chars@.len(),
            forall|j: int| 0 <= j < i ==> !#[trigger] parent_at(chars@, j),
        decreases n - i,
    {
        if n - i >= 2 && chars[i] == '.' && chars[i + 1] == '.' && (i == 0 || chars[i - 1] == '/')
            && (n - i == 2 || chars[i + 2] == '/') {
            proof {
                assert(parent_at(chars@, i as int));
            }
            return true;
        }
        i = i + 1;
    }
    false
}

/// Whether the first component is `.`.
pub fn dot_leads(chars: &[char]) -> (r: bool)
    ensures
        r == leads_with_dot(chars@),
{
    chars.len() > 0 && chars[0] == '.' && (chars.len() == 1 || chars[1] == '/')
}

/// Checks that a value can be placed below a root: not empty, no backslash, not
/// absolute, and made of plain components only.
pub fn validate_relative_path(label: &str, value: &str) -> (r: Result<(), PathError>)
    ensures
        match r {
            Ok(_) => fault_of(value@) is None,
            Err(e) => fault_of(value@) == Some(e.fault) && e.label@ == label@ && e.value@
                == value@,
        },
{
    let chars = text::chars_of(value);
    let fault: Option<PathFault> = if chars.len() == 0 {
        Some(PathFault::Empty)
    } else if text::contains_char(value, '\\') {
        Some(PathFault::Backslash)
    } else if chars[0] == '/' {
        Some(PathFault::Absolute)
    } else if dot_leads(chars.as_slice()) || has_parent(chars.as_slice()) {
        Some(PathFault::UnsafeComponent)
    } else {
        None
    };
    match fault {
        Some(fault) => Err(PathError { label: label.to_owned(), value: value.to_owned(), fault }),
        None => Ok(()),
    }
}

/// The texts of labelled parts.
pub open spec fn part_views(parts: Seq<(&str, &str)>) -> Seq<(Seq<char>, Seq<char>)> {
    Seq::new(parts.len(), |i: int| (parts[i].0@, parts[i].1@))
}

/// A root without the separators at its end.
fn base_path(root: &str) -> (r: String)
    ensures
        r@ == base_of(root@),
{
    let base = text::trim_end_matches(root, '/');
    if text::chars_of(base.as_str()).len() == 0 && text::chars_of(root).len() > 0 {
        let mut r = String::new();
        r.push('/');
        proof {
            assert(r@ =~= seq!['/']);
        }
        r
    } else {
        base
    }
}

/// Joins labelled parts below a root.
pub fn join_under_root(root: &str, parts: &[(&str, &str)]) -> (r: Result<String, PathError>)
    ensures
        match r {
            Ok(out) => joined(root@, part_views(parts@)) == Ok::<Seq<char>, PathErrorView>(out@),
            Err(e) => joined(root@, part_views(parts@)) == Err::<Seq<char>, PathErrorView>(
                e.deep_view(),
            ),
        },
{
    let ghost all = part_views(parts@);
    let mut out = base_path(root);
    let mut i: usize = 0;
    while i < parts.len()
        invariant
            i <= parts@.len(),
            all == part_views(parts@),
            joined(root@, all.take(i as int)) == Ok::<Seq<char>, PathErrorView>(out@),
        decreases parts@.len() - i,
    {
        proof {
            assert(all.take(i + 1).drop_last() =~= all.take(i as int));
        }
        let (label, value) = parts[i];
        match validate_relative_path(label, value) {
            Err(e) => {
                proof {
                    lemma_joined_err(root@, all, i + 1);
                }
                return Err(e);
            },
            Ok(_) => {},
        }
        push_part(&mut out, value);
        i = i + 1;
    }
    proof {
        assert(all.take(i as int) =~= all);
    }
    Ok(out)
}

/// A rejected part decides, whatever parts follow it.
proof fn lemma_joined_err(root: Seq<char>, parts: Seq<(Seq<char>, Seq<char>)>, n: int)
    requires
        0 <= n <= parts.len(),
        joined(root, parts.take(n)) is Err,
    ensures
        joined(root, parts) == joined(root, parts.take(n)),
    decreases parts.len(),
{
    if n == parts.len() {
        assert(parts.take(n) =~= parts);
    } else {
        assert(parts.drop_last().take(n) =~= parts.take(n));
        lemma_joined_err(root, parts.drop_last(), n);
    }
}

/// Appends a relative part to a path.
fn push_part(out: &mut String, part: &str)
    ensures
        final(out)@ == pushed(old(out)@, part@),
{
    let chars = text::chars_of(out.as_str());
    if chars.len() > 0 && chars[chars.len() - 1] != '/' {
        out.push('/');
    }
    out.append(part);
}

/// The final component of a path.
pub fn file_name_of(path: &str) -> (r: Option<String>)
    ensures
        r.deep_view() == file_name(path@),
{
    let chars = text::chars_of(path);
    let mut n: usize = chars.len();
    proof {
        assert(chars@.take(n as int) =~= path@);
    }
    while n > 0 && (chars[n - 1] == '/' || (n >= 2 && chars[n - 1] == '.' && chars[n - 2] == '/'))
        invariant
            n <= chars@.len(),
            stripped(path@) == stripped(chars@.take(n as int)),
        decreases n,
    {
        proof {
            assert(chars@.take(n as int).drop_last() =~= chars@.take(n - 1));
        }
        n = n - 1;
    }
    let from = text::find_last(chars.as_slice(), n, '/');
    let ghost t = chars@.take(n as int);
    proof {
        assert(stripped(path@) == t);
        assert(t.skip(from as int) =~= chars@.subrange(from as int, n as int));
    }
    let ghost last = t.skip(from as int);
    let len: usize = n - from;
    if n == 0 || (len == 1 && chars[from] == '.') || (len == 2 && chars[from] == '.' && chars[from
        + 1] == '.') {
        proof {
            if n > 0 && len == 1 {
                assert(last =~= seq!['.']);
            }
            if n > 0 && len == 2 {
                assert(last =~= seq!['.', '.']);
            }
        }
        None
    } else {
        proof {
            if last == seq!['.'] {
                assert(last.len() == 1 && last[0] == '.');
            }
            if last == seq!['.', '.'] {
                assert(last.len() == 2 && last[0] == '.' && last[1] == '.');
            }
        }
        Some(text::string_of(chars.as_slice(), from, n))
    }
}

/// The extension of a path's file name.
pub fn extension_of(path: &str) -> (r: Option<String>)
    ensures
        r.deep_view() == extension(path@),
{
    match file_name_of(path) {
        None => None,
        Some(name) => {
            let chars = text::chars_of(name.as_str());
            let from = text::find_last(chars.as_slice(), chars.len(), '.');
            proof {
                assert(chars@.take(chars@.len() as int) =~= name@);
                assert(chars@.subrange(from as int, chars@.len() as int) =~= name@.skip(
                    from as int,
                ));
            }
            if from > 1 {
                Some(text::string_of(chars.as_slice(), from, chars.len()))
            } else {
                None
            }
        },
    }
}

/// Whether a path is a root or lies below it.
pub fn is_under(path: &str, root: &str) -> (r: bool)
    ensures
        r == under(path@, root@),
{
    let mut base = text::trim_end_matches(root, '/');
    if text::str_eq(path, base.as_str()) {
        return true;
    }
    base.push('/');
    text::starts_with(path, base.as_str())
}

} // verus!
