//! Slash-separated paths held as text: their components, order, last name,
//! extension and joining.
use vstd::prelude::*;

use crate::text;
use crate::text::{chars_of, push_text, rfind_char, split_of, string_of};

verus! {

/// What a segment between slashes stands for: nothing if it is empty or, except
/// at the start of a path, a single dot. Components order as their kind does
/// first: the root, then `.`, then `..`, then a name. So each is written as a
/// character for its kind followed by its name, if it has one.
pub open spec fn component(segment: Seq<char>, leads: bool) -> Option<Seq<char>> {
    if segment.len() == 0 {
        None
    } else if segment == seq!['.'] {
        if leads {
            Some(seq!['\u{1}'])
        } else {
            None
        }
    } else if segment == seq!['.', '.'] {
        Some(seq!['\u{2}'])
    } else {
        Some(seq!['\u{3}'] + segment)
    }
}

/// The components that the first `n` segments stand for.
pub open spec fn components_upto(segments: Seq<Seq<char>>, n: int) -> Seq<Seq<char>>
    decreases n,
{
    if n <= 0 {
        Seq::empty()
    } else {
        match component(segments[n - 1], n == 1) {
            Some(c) => components_upto(segments, n - 1).push(c),
            None => components_upto(segments, n - 1),
        }
    }
}

/// Whether a path starts at the root.
pub open spec fn is_absolute(path: Seq<char>) -> bool {
    path.len() > 0 && path[0] == '/'
}

/// The components of a path. Two paths are the same, and one comes before
/// another, as their lists of components do.
pub open spec fn components(path: Seq<char>) -> Seq<Seq<char>> {
    let segments = text::split(path, '/');
    let below = components_upto(segments, segments.len() as int);
    if is_absolute(path) {
        seq![seq!['\u{0}']] + below
    } else {
        below
    }
}

/// The name that a component carries, if it is a name.
pub open spec fn name_of(component: Seq<char>) -> Option<Seq<char>> {
    if component.len() > 0 && component[0] == '\u{3}' {
        Some(component.drop_first())
    } else {
        None
    }
}

/// The last name of a path: nothing for the root, an empty path or one that ends
/// in `..`.
pub open spec fn file_name(path: Seq<char>) -> Option<Seq<char>> {
    let c = components(path);
    if c.len() > 0 {
        name_of(c.last())
    } else {
        None
    }
}

/// The name of the directory that a path's last component is in.
pub open spec fn parent_name(path: Seq<char>) -> Option<Seq<char>> {
    let c = components(path);
    if c.len() >= 2 {
        name_of(c[c.len() - 2])
    } else {
        None
    }
}

/// A name without its extension.
pub open spec fn stem_of(name: Seq<char>) -> Seq<char> {
    let dot = text::last_index(name, '.');
    if dot <= 0 {
        name
    } else {
        name.take(dot)
    }
}

/// The extension of a name: what follows the last dot, unless that is the first
/// character.
pub open spec fn ext_of(name: Seq<char>) -> Option<Seq<char>> {
    let dot = text::last_index(name, '.');
    if dot <= 0 {
        None
    } else {
        Some(name.skip(dot + 1))
    }
}

/// The stem of a path's last name.
pub open spec fn file_stem(path: Seq<char>) -> Option<Seq<char>> {
    match file_name(path) {
        Some(name) => Some(stem_of(name)),
        None => None,
    }
}

/// The extension of a path's last name.
pub open spec fn extension(path: Seq<char>) -> Option<Seq<char>> {
    match file_name(path) {
        Some(name) => ext_of(name),
        None => None,
    }
}

/// `path` seen from `base`: an absolute one stands for itself, another is
/// appended with a slash between unless `base` is empty or ends in one.
pub open spec fn joined(base: Seq<char>, path: Seq<char>) -> Seq<char> {
    if is_absolute(path) {
        path
    } else if base.len() == 0 || base.last() == '/' {
        base + path
    } else {
        base.push('/') + path
    }
}

/// A path without what follows its last component: slashes, and dots that stand alone.
pub open spec fn trimmed_back(path: Seq<char>) -> Seq<char>
    decreases path.len(),
{
    if path.len() >= 2 && (path.last() == '/' || (path.last() == '.' && path[path.len() - 2]
        == '/')) {
        trimmed_back(path.drop_last())
    } else {
        path
    }
}

/// The path of the directory that a path's last component is in.
pub open spec fn parent(path: Seq<char>) -> Seq<char> {
    let t = trimmed_back(path);
    trimmed_back(t.take(text::last_index(t, '/') + 1))
}

/// A path with another name in place of its own, or with a name behind it if it has
/// none.
pub open spec fn renamed(path: Seq<char>, name: Seq<char>) -> Seq<char> {
    if file_name(path) is Some {
        joined(parent(path), name)
    } else {
        joined(path, name)
    }
}

/// The components of a path.
pub fn components_of(path: &str) -> (r: Vec<Vec<char>>)
    ensures
        text::texts(r@) == components(path@),
{
    let v: Vec<char> = chars_of(path);
    let segments: Vec<Vec<char>> = split_of(v.as_slice(), '/');
    let ghost segs = text::split(path@, '/');
    let mut out: Vec<Vec<char>> = Vec::new();
    let rooted: bool = v.len() > 0 && v[0] == '/';
    if rooted {
        let mut root: Vec<char> = Vec::new();
        root.push('\u{0}');
        out.push(root);
        assert(root@ =~= seq!['\u{0}']);
    }
    let ghost base = text::texts(out@);
    assert(base =~= (if rooted {
        seq![seq!['\u{0}']]
    } else {
        Seq::empty()
    }));
    assert(base + components_upto(segs, 0) =~= base);
    let mut i: usize = 0;
    while i < segments.len()
        invariant
            text::texts(segments@) == segs,
            i <= segments@.len(),
            text::texts(out@) == base + components_upto(segs, i as int),
        decreases segments@.len() - i,
    {
        let segment: &Vec<char> = &segments[i];
        let ghost s = segs[i as int];
        assert(s == segment@);
        let ghost before = out@;
        let mut c: Vec<char> = Vec::new();
        if segment.len() == 1 && segment[0] == '.' {
            assert(s =~= seq!['.']);
            if i == 0 {
                c.push('\u{1}');
                assert(c@ =~= seq!['\u{1}']);
            }
        } else if segment.len() == 2 && segment[0] == '.' && segment[1] == '.' {
            assert(s =~= seq!['.', '.']);
            c.push('\u{2}');
            assert(c@ =~= seq!['\u{2}']);
        } else if segment.len() > 0 {
            c.push('\u{3}');
            let mut k: usize = 0;
            while k < segment.len()
                invariant
                    k <= segment@.len(),
                    c@ == seq!['\u{3}'] + segment@.take(k as int),
                decreases segment@.len() - k,
            {
                c.push(segment[k]);
                assert(segment@.take(k + 1) =~= segment@.take(k as int).push(segment@[k as int]));
                k += 1;
            }
            assert(segment@.take(k as int) =~= s);
        }
        if c.len() > 0 {
            let ghost whole = c@;
            out.push(c);
            assert(component(s, i == 0) == Some(whole));
            assert(text::texts(out@) =~= text::texts(before).push(whole));
        }
        assert(text::texts(out@) =~= base + components_upto(segs, i + 1));
        i += 1;
    }
    out
}

fn name_text(component: &[char]) -> (r: Option<String>)
    ensures
        text::opt_view(r) == name_of(component@),
{
    if component.len() > 0 && component[0] == '\u{3}' {
        assert(component@.drop_first() =~= component@.subrange(1, component@.len() as int));
        Some(string_of(&component[1..component.len()]))
    } else {
        None
    }
}

/// The last name of a path.
pub fn file_name_of(path: &str) -> (r: Option<String>)
    ensures
        text::opt_view(r) == file_name(path@),
{
    let c: Vec<Vec<char>> = components_of(path);
    let n: usize = c.len();
    assert(components(path@).len() == n);
    if n > 0 {
        assert(components(path@)[n - 1] == c@[n - 1]@);
        name_text(c[n - 1].as_slice())
    } else {
        None
    }
}

/// The name of the directory that a path's last component is in.
pub fn parent_name_of(path: &str) -> (r: Option<String>)
    ensures
        text::opt_view(r) == parent_name(path@),
{
    let c: Vec<Vec<char>> = components_of(path);
    let n: usize = c.len();
    assert(components(path@).len() == n);
    if n >= 2 {
        assert(components(path@)[n - 2] == c@[n - 2]@);
        name_text(c[n - 2].as_slice())
    } else {
        None
    }
}

/// A name without its extension.
pub fn stem_of_name(name: &str) -> (r: String)
    ensures
        r@ == stem_of(name@),
{
    let v: Vec<char> = chars_of(name);
    match rfind_char(v.as_slice(), '.') {
        Some(dot) => if dot == 0 {
            string_of(v.as_slice())
        } else {
            assert(name@.take(dot as int) =~= v@.subrange(0, dot as int));
            string_of(&v.as_slice()[0..dot])
        },
        None => string_of(v.as_slice()),
    }
}

/// The extension of a name.
pub fn ext_of_name(name: &str) -> (r: Option<String>)
    ensures
        text::opt_view(r) == ext_of(name@),
{
    let v: Vec<char> = chars_of(name);
    let n: usize = v.len();
    match rfind_char(v.as_slice(), '.') {
        Some(dot) => if dot == 0 {
            None
        } else {
            assert(name@.skip(dot + 1) =~= v@.subrange(dot + 1, n as int));
            Some(string_of(&v.as_slice()[dot + 1..n]))
        },
        None => None,
    }
}

/// The stem of a path's last name.
pub fn file_stem_of(path: &str) -> (r: Option<String>)
    ensures
        text::opt_view(r) == file_stem(path@),
{
    match file_name_of(path) {
        Some(name) => Some(stem_of_name(name.as_str())),
        None => None,
    }
}

/// The extension of a path's last name.
pub fn extension_of_path(path: &str) -> (r: Option<String>)
    ensures
        text::opt_view(r) == extension(path@),
{
    match file_name_of(path) {
        Some(name) => ext_of_name(name.as_str()),
        None => None,
    }
}

/// `path` seen from `base`.
pub fn join(base: &str, path: &str) -> (r: String)
    ensures
        r@ == joined(base@, path@),
{
    let p: Vec<char> = chars_of(path);
    if p.len() > 0 && p[0] == '/' {
        return string_of(p.as_slice());
    }
    let b: Vec<char> = chars_of(base);
    let mut out: String = string_of(b.as_slice());
    if b.len() > 0 && b[b.len() - 1] != '/' {
        out.push('/');
    }
    push_text(&mut out, path);
    out
}

fn trim_back(v: &[char]) -> (k: usize)
    ensures
        k <= v@.len(),
        v@.take(k as int) == trimmed_back(v@),
{
    let mut k: usize = v.len();
    assert(v@.take(k as int) =~= v@);
    while k >= 2 && (v[k - 1] == '/' || (v[k - 1] == '.' && v[k - 2] == '/'))
        invariant
            k <= v@.len(),
            trimmed_back(v@.take(k as int)) == trimmed_back(v@),
        decreases k,
    {
        assert(v@.take(k as int).drop_last() =~= v@.take(k - 1));
        k -= 1;
    }
    k
}

/// A path with another name in place of its own.
pub fn with_name(path: &str, name: &str) -> (r: String)
    ensures
        r@ == renamed(path@, name@),
{
    if file_name_of(path).is_none() {
        return join(path, name);
    }
    let v: Vec<char> = chars_of(path);
    let end: usize = trim_back(v.as_slice());
    let whole: &[char] = &v[0..end];
    assert(whole@ =~= trimmed_back(path@));
    let start: usize = match rfind_char(whole, '/') {
        Some(k) => k + 1,
        None => 0,
    };
    let folder: &[char] = &whole[0..start];
    assert(folder@ =~= whole@.take(text::last_index(whole@, '/') + 1));
    let cut: usize = trim_back(folder);
    let above: String = string_of(&folder[0..cut]);
    assert(above@ =~= parent(path@));
    join(above.as_str(), name)
}

proof fn lemma_components_of_more(a: Seq<Seq<char>>, seg: Seq<char>, n: int)
    requires
        0 <= n <= a.len(),
    ensures
        components_upto(a.push(seg), n) == components_upto(a, n),
    decreases n,
{
    if n > 0 {
        lemma_components_of_more(a, seg, n - 1);
    }
}

/// A path that goes on with one more segment has the components that it had, and one more
/// for the segment: none for an empty one or a single dot, the step up for two dots, and
/// otherwise its name.
pub proof fn a_segment_adds_a_component(dir: Seq<char>, seg: Seq<char>)
    requires
        dir.len() > 0,
        !seg.contains('/'),
    ensures
        ({
            let all = components(dir + seq!['/'] + seg);
            if seg.len() == 0 || seg == seq!['.'] {
                all == components(dir)
            } else if seg == seq!['.', '.'] {
                all == components(dir).push(seq!['\u{2}'])
            } else {
                all == components(dir).push(seq!['\u{3}'] + seg)
            }
        }),
{
    let path = dir + seq!['/'] + seg;
    text::splitting_goes_piece_by_piece(dir, seg, '/');
    text::splitting_goes_piece_by_piece(seg, Seq::empty(), '/');
    let a = text::split(dir, '/');
    text::splitting_loses_nothing(dir, '/');
    assert(text::split(path, '/') =~= a.push(seg));
    lemma_components_of_more(a, seg, a.len() as int);
    assert(a.push(seg)[a.len() as int] == seg);
    assert(path[0] == dir[0]);
    let below = components_upto(a, a.len() as int);
    assert(seq![seq!['\u{0}']] + below.push(seq!['\u{2}']) =~= (seq![seq!['\u{0}']] + below).push(
        seq!['\u{2}'],
    ));
    assert(seq![seq!['\u{0}']] + below.push(seq!['\u{3}'] + seg) =~= (seq![seq!['\u{0}']]
        + below).push(seq!['\u{3}'] + seg));
}

/// A path of one segment has one component or none: none for the empty path, and where it
/// begins at the root, the root before it.
pub proof fn a_path_of_one_segment(seg: Seq<char>)
    requires
        !seg.contains('/'),
    ensures
        seg.len() == 0 ==> components(seg) == Seq::<Seq<char>>::empty() && components(seq!['/'])
            == seq![seq!['\u{0}']],
        seg == seq!['.'] ==> components(seg) == seq![seq!['\u{1}']],
        seg == seq!['.', '.'] ==> components(seg) == seq![seq!['\u{2}']],
        seg.len() > 0 && seg != seq!['.'] && seg != seq!['.', '.'] ==> components(seg) == seq![seq![
            '\u{3}',
        ] + seg] && components(seq!['/'] + seg) == seq![seq!['\u{0}'], seq!['\u{3}'] + seg],
{
    reveal_with_fuel(components_upto, 3);
    text::splitting_goes_piece_by_piece(seg, Seq::empty(), '/');
    text::splitting_goes_piece_by_piece(Seq::empty(), seg, '/');
    text::splitting_goes_piece_by_piece(Seq::empty(), Seq::empty(), '/');
    let none = Seq::<char>::empty();
    assert(none + seq!['/'] + seg =~= seq!['/'] + seg);
    assert(!none.contains('/'));
    assert(text::split(seg, '/') == seq![seg]);
    assert(text::split(seq!['/'] + seg, '/') =~= seq![none, seg]);
    if seg.len() == 0 {
        assert(seg =~= none);
        assert(seq!['/'] + seg =~= seq!['/']);
        assert(components(seg) =~= Seq::empty());
        assert(components(seq!['/']) =~= seq![seq!['\u{0}']]);
    } else {
        if seg[0] == '/' {
            assert(seg.contains('/'));
        }
        assert(components(seg).len() == 1);
        if seg != seq!['.'] && seg != seq!['.', '.'] {
            assert(components(seg) =~= seq![seq!['\u{3}'] + seg]);
            assert(components(seq!['/'] + seg) =~= seq![seq!['\u{0}'], seq!['\u{3}'] + seg]);
        } else if seg == seq!['.'] {
            assert(components(seg) =~= seq![seq!['\u{1}']]);
        } else {
            assert(components(seg) =~= seq![seq!['\u{2}']]);
        }
    }
}

/// The name of a file is the last segment of its path, and the name of its folder the one
/// before that.
pub proof fn names_are_the_last_segments(dir: Seq<char>, folder: Seq<char>, name: Seq<char>)
    requires
        !name.contains('/') && name.len() > 0 && name != seq!['.'] && name != seq!['.', '.'],
        !folder.contains('/') && folder.len() > 0 && folder != seq!['.'] && folder != seq!['.', '.'],
        dir.len() > 0,
    ensures
        file_name(name) == Some(name),
        parent_name(name) is None,
        file_name(seq!['/'] + name) == Some(name),
        parent_name(seq!['/'] + name) is None,
        file_name(dir + seq!['/'] + name) == Some(name),
        parent_name(dir + seq!['/'] + folder + seq!['/'] + name) == Some(folder),
        parent_name(folder + seq!['/'] + name) == Some(folder),
{
    a_path_of_one_segment(name);
    a_path_of_one_segment(folder);
    a_segment_adds_a_component(dir, name);
    a_segment_adds_a_component(dir, folder);
    a_segment_adds_a_component(dir + seq!['/'] + folder, name);
    a_segment_adds_a_component(folder, name);
    assert((seq!['\u{3}'] + name).drop_first() =~= name);
    assert((seq!['\u{3}'] + folder).drop_first() =~= folder);
}

/// A path that ends at the root or in two dots names no file.
pub proof fn folders_alone_name_no_file(dir: Seq<char>)
    requires
        dir.len() > 0,
    ensures
        file_name(Seq::empty()) is None,
        file_name(seq!['/']) is None,
        file_name(dir + seq!['/'] + seq!['.', '.']) is None,
        file_name(dir + seq!['/']) == file_name(dir),
        components(dir + seq!['/']) == components(dir),
{
    let none = Seq::<char>::empty();
    a_path_of_one_segment(none);
    a_segment_adds_a_component(dir, none);
    assert(!seq!['.', '.'].contains('/'));
    a_segment_adds_a_component(dir, seq!['.', '.']);
    assert(dir + seq!['/'] + none =~= dir + seq!['/']);
    assert(seq!['.', '.'].len() == 2);
    assert(seq!['.', '.'] != seq!['.']);
}

/// A name is its stem and its extension with a dot between them; the extension begins at
/// the last dot, and a dot in front is none.
pub proof fn names_split_at_the_last_dot(stem: Seq<char>, ext: Seq<char>, name: Seq<char>)
    requires
        !ext.contains('.'),
        stem.len() > 0,
    ensures
        stem_of(stem + seq!['.'] + ext) == stem,
        ext_of(stem + seq!['.'] + ext) == Some(ext),
        !name.contains('.') ==> stem_of(name) == name && ext_of(name) is None,
        stem_of(seq!['.'] + ext) == seq!['.'] + ext && ext_of(seq!['.'] + ext) is None,
        ext_of(name) matches Some(e) ==> name == stem_of(name) + seq!['.'] + e && !e.contains('.')
            && stem_of(name).len() > 0,
        ext_of(name) is None ==> stem_of(name) == name,
{
    let full = stem + seq!['.'] + ext;
    let k = stem.len() as int;
    assert forall|i: int| k < i < full.len() implies full[i] != '.' by {
        assert(full[i] == ext[i - k - 1]);
    }
    text::lemma_last_index(full, '.', k);
    assert(full.take(k) =~= stem);
    assert(full.skip(k + 1) =~= ext);
    let dotted = seq!['.'] + ext;
    assert forall|i: int| 0 < i < dotted.len() implies dotted[i] != '.' by {
        assert(dotted[i] == ext[i - 1]);
    }
    text::lemma_last_index(dotted, '.', 0);
    text::places_of_a_character(name, '.');
    let at = text::last_index(name, '.');
    if at > 0 {
        assert(name =~= name.take(at) + seq!['.'] + name.skip(at + 1));
        let e = name.skip(at + 1);
        assert forall|i: int| 0 <= i < e.len() implies #[trigger] e[i] != '.' by {
            assert(e[i] == name[at + 1 + i]);
        }
    }
}

/// A path is put behind a folder with one slash between them, and a path from the root
/// stands for itself.
pub proof fn joining_puts_one_slash_between(base: Seq<char>, path: Seq<char>)
    requires
        path.len() > 0,
    ensures
        path[0] == '/' ==> joined(base, path) == path,
        path[0] != '/' && base.len() == 0 ==> joined(base, path) == path,
        path[0] != '/' && base.len() > 0 && base.last() == '/' ==> joined(base, path) == base + path,
        path[0] != '/' && base.len() > 0 && base.last() != '/' ==> joined(base, path) == base + seq![
            '/',
        ] + path,
        path[0] != '/' && !path.contains('/') && path != seq!['.'] && path != seq!['.', '.']
            ==> file_name(joined(base, path)) == Some(path),
{
    if base.len() == 0 {
        assert(base + path =~= path);
    }
    assert(base.push('/') + path =~= base + seq!['/'] + path);
    if path[0] != '/' && !path.contains('/') && path != seq!['.'] && path != seq!['.', '.'] {
        a_path_of_one_segment(path);
        assert((seq!['\u{3}'] + path).drop_first() =~= path);
        if base.len() > 0 {
            if base.last() == '/' {
                let front = base.drop_last();
                assert(base + path =~= front + seq!['/'] + path);
                if front.len() > 0 {
                    a_segment_adds_a_component(front, path);
                } else {
                    assert(base + path =~= seq!['/'] + path);
                }
            } else {
                a_segment_adds_a_component(base, path);
            }
        }
    }
}

/// The folder of a file is its path without the last segment, and renaming a file changes
/// that segment only.
pub proof fn parents_are_the_path_without_the_name(
    dir: Seq<char>,
    name: Seq<char>,
    other: Seq<char>,
)
    requires
        dir.len() > 0,
        dir.last() != '/',
        !(dir.last() == '.' && dir.len() >= 2 && dir[dir.len() - 2] == '/'),
        !name.contains('/') && name.len() > 0 && name != seq!['.'] && name != seq!['.', '.'],
        other.len() > 0 && other[0] != '/',
    ensures
        parent(dir + seq!['/'] + name) == dir,
        renamed(dir + seq!['/'] + name, other) == dir + seq!['/'] + other,
        parent(seq!['/'] + name) == seq!['/'],
        renamed(seq!['/'] + name, other) == seq!['/'] + other,
        parent(name) == Seq::<char>::empty(),
        renamed(name, other) == other,
{
    let none = Seq::<char>::empty();
    let path = dir + seq!['/'] + name;
    let n = dir.len() as int;
    assert(name.last() != '/') by {
        assert(name.contains(name[name.len() - 1]));
    }
    if name.last() == '.' {
        if name.len() == 1 {
            assert(name =~= seq!['.']);
        } else {
            assert(name[name.len() - 2] != '/') by {
                assert(name.contains(name[name.len() - 2]));
            }
        }
    }
    assert(path.last() == name.last());
    assert(path.len() - 2 >= n ==> path[path.len() - 2] == (if name.len() == 1 {
        '/'
    } else {
        name[name.len() - 2]
    }));
    assert(trimmed_back(path) == path);
    assert forall|i: int| n < i < path.len() implies path[i] != '/' by {
        assert(path[i] == name[i - n - 1]);
        assert(name.contains(name[i - n - 1]));
    }
    text::lemma_last_index(path, '/', n);
    let t = path.take(n + 1);
    assert(t.drop_last() =~= dir);
    assert(t.last() == '/');
    assert(trimmed_back(dir) == dir);
    assert(trimmed_back(t) == dir);
    names_are_the_last_segments(dir, name, name);
    assert(dir.push('/') + other =~= dir + seq!['/'] + other);
    let rooted = seq!['/'] + name;
    assert(rooted.last() == name.last());
    assert(rooted[rooted.len() - 2] == (if name.len() == 1 {
        '/'
    } else {
        name[name.len() - 2]
    }));
    assert(trimmed_back(rooted) == rooted);
    assert forall|i: int| 0 < i < rooted.len() implies rooted[i] != '/' by {
        assert(rooted[i] == name[i - 1]);
        assert(name.contains(name[i - 1]));
    }
    text::lemma_last_index(rooted, '/', 0);
    assert(rooted.take(1) =~= seq!['/']);
    assert(trimmed_back(name) == name);
    assert forall|i: int| -1 < i < name.len() implies name[i] != '/' by {
        assert(name.contains(name[i]));
    }
    text::lemma_last_index(name, '/', -1);
    assert(name.take(0) =~= none);
    assert(none + other =~= other);
}

} // verus!
