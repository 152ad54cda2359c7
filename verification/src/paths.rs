//! Unix paths as bytes.
use vstd::prelude::*;
use vstd::slice::slice_subrange;
use vstd::utf8::*;

verus! {

/// What `String::from_utf8_lossy` makes of bytes that are not UTF-8.
pub uninterp spec fn lossy_text(bytes: Seq<u8>) -> Seq<char>;

/// `String::from_utf8_lossy`: valid UTF-8 is decoded as it is. How invalid
/// sequences are replaced is only named.
#[verifier::external_body]
pub(crate) fn display_path(path: &[u8]) -> (text: String)
    ensures
        text@ == lossy_text(path@),
        valid_utf8(path@) ==> text@ == decode_utf8(path@),
{
    String::from_utf8_lossy(path).into_owned()
}

/// `String::from_utf8`: it gives the text whose encoding the bytes are, and
/// fails exactly where they are not valid UTF-8.
#[verifier::external_body]
pub(crate) fn text_from_utf8(bytes: Vec<u8>) -> (text: Option<String>)
    ensures
        match text {
            Some(s) => valid_utf8(bytes@) && encode_utf8(s@) == bytes@,
            None => !valid_utf8(bytes@),
        },
{
    String::from_utf8(bytes).ok()
}

/// Whether a path starts at the root.
pub open spec fn is_absolute(path: Seq<u8>) -> bool {
    path.len() > 0 && path[0] == 47
}

/// A path with a relative part appended.
pub open spec fn path_join(base: Seq<u8>, part: Seq<u8>) -> Seq<u8> {
    if base.len() > 0 && base.last() != 47 {
        base.push(47) + part
    } else {
        base + part
    }
}

/// Whether a path starts at the root.
pub fn starts_at_root(path: &[u8]) -> (yes: bool)
    ensures
        yes == is_absolute(path@),
{
    path.len() > 0 && path[0] == 47
}

/// Appends bytes.
pub(crate) fn push_bytes(out: &mut Vec<u8>, more: &[u8])
    ensures
        final(out)@ == old(out)@ + more@,
{
    let ghost before = out@;
    let mut i: usize = 0;
    assert(more@.take(0) =~= Seq::<u8>::empty());
    assert(out@ =~= before + more@.take(0));
    while i < more.len()
        invariant
            i <= more@.len(),
            out@ == before + more@.take(i as int),
        decreases more@.len() - i,
    {
        out.push(more[i]);
        assert(more@.take(i + 1) =~= more@.take(i as int).push(more@[i as int]));
        assert(out@ =~= before + more@.take(i + 1));
        i += 1;
    }
    assert(more@.take(i as int) =~= more@);
}

/// A copy of bytes.
pub fn copy_bytes(bytes: &[u8]) -> (copy: Vec<u8>)
    ensures
        copy@ == bytes@,
{
    let mut copy: Vec<u8> = Vec::new();
    push_bytes(&mut copy, bytes);
    assert(copy@ =~= bytes@);
    copy
}

/// Appends a relative part, given as text, to a path.
pub fn join(base: &[u8], part: &str) -> (path: Vec<u8>)
    ensures
        path@ == path_join(base@, encode_utf8(part@)),
{
    let mut path = copy_bytes(base);
    if path.len() > 0 && path[path.len() - 1] != 47 {
        path.push(47);
    }
    push_bytes(&mut path, part.as_bytes());
    path
}

/// Whether two byte strings are equal.
pub fn same_bytes(a: &[u8], b: &[u8]) -> (same: bool)
    ensures
        same == (a@ == b@),
{
    if a.len() != b.len() {
        return false;
    }
    let mut i: usize = 0;
    while i < a.len()
        invariant
            i <= a@.len() == b@.len(),
            forall|k: int| 0 <= k < i ==> a@[k] == b@[k],
        decreases a@.len() - i,
    {
        if a[i] != b[i] {
            return false;
        }
        i += 1;
    }
    assert(a@ =~= b@);
    true
}

/// Whether a path starts with the current directory.
pub open spec fn starts_here(path: Seq<u8>) -> bool {
    path.len() > 0 && path[0] == 46 && (path.len() == 1 || path[1] == 47)
}

/// A segment between slashes, where it counts as a component: an empty one does
/// not, and neither does a single dot.
pub open spec fn component(segment: Seq<u8>) -> Seq<Seq<u8>> {
    if segment.len() == 0 || segment == seq![46u8] {
        Seq::empty()
    } else {
        seq![segment]
    }
}

/// The components that follow, where `path[start..i]` belongs to the current
/// segment.
pub open spec fn components_behind(path: Seq<u8>, start: int, i: int) -> Seq<Seq<u8>>
    decreases path.len() - i,
{
    if !(0 <= start <= i < path.len()) {
        component(path.subrange(start, path.len() as int))
    } else if path[i] == 47 {
        component(path.subrange(start, i)) + components_behind(path, i + 1, i + 1)
    } else {
        components_behind(path, start, i + 1)
    }
}

/// Whether two paths are the same, component by component: repeated and trailing
/// slashes do not matter, and neither do dots, but for one at the start.
pub open spec fn is_same_path(a: Seq<u8>, b: Seq<u8>) -> bool {
    &&& is_absolute(a) == is_absolute(b)
    &&& starts_here(a) == starts_here(b)
    &&& components_behind(a, 0, 0) == components_behind(b, 0, 0)
}

/// A copy of byte strings.
pub(crate) fn copy_list(list: &Vec<Vec<u8>>) -> (copy: Vec<Vec<u8>>)
    ensures
        component_views(copy@) == component_views(list@),
{
    let mut copy: Vec<Vec<u8>> = Vec::new();
    let mut i: usize = 0;
    while i < list.len()
        invariant
            i <= list@.len(),
            copy@.len() == i,
            forall|k: int| 0 <= k < i ==> (#[trigger] copy@[k])@ == list@[k]@,
        decreases list@.len() - i,
    {
        copy.push(copy_bytes(list[i].as_slice()));
        i += 1;
    }
    assert(component_views(copy@) =~= component_views(list@));
    copy
}

/// A copy of bytes, where there are some.
pub(crate) fn copy_option(bytes: &Option<Vec<u8>>) -> (copy: Option<Vec<u8>>)
    ensures
        bytes_option(copy) == bytes_option(*bytes),
{
    match bytes {
        Some(bytes) => Some(copy_bytes(bytes.as_slice())),
        None => None,
    }
}

/// The contents of components.
pub open spec fn component_views(parts: Seq<Vec<u8>>) -> Seq<Seq<u8>> {
    parts.map_values(|part: Vec<u8>| part@)
}

fn push_component(parts: &mut Vec<Vec<u8>>, segment: &[u8])
    ensures
        component_views(final(parts)@) == component_views(old(parts)@) + component(segment@),
{
    let ghost before = parts@;
    if segment.len() == 0 || (segment.len() == 1 && segment[0] == 46) {
        proof {
            if segment@.len() == 1 {
                assert(segment@ =~= seq![46u8]);
            }
            assert(component_views(before) + Seq::<Seq<u8>>::empty() =~= component_views(before));
        }
        return;
    }
    proof {
        if segment@ == seq![46u8] {
            assert(segment@.len() == 1 && segment@[0] == 46);
        }
    }
    let part = copy_bytes(segment);
    parts.push(part);
    assert(component_views(parts@) =~= component_views(before) + seq![segment@]);
}

/// The components of a path, without its root.
pub fn path_segments(path: &[u8]) -> (parts: Vec<Vec<u8>>)
    ensures
        component_views(parts@) == components_behind(path@, 0, 0),
{
    let mut parts: Vec<Vec<u8>> = Vec::new();
    let mut start: usize = 0;
    let mut i: usize = 0;
    let ghost all = components_behind(path@, 0, 0);
    assert(component_views(parts@) + all =~= all);
    while i < path.len()
        invariant
            start <= i <= path@.len(),
            all == components_behind(path@, 0, 0),
            all == component_views(parts@) + components_behind(path@, start as int, i as int),
        decreases path@.len() - i,
    {
        if path[i] == 47 {
            let ghost before = component_views(parts@);
            let ghost segment = path@.subrange(start as int, i as int);
            push_component(&mut parts, slice_subrange(path, start, i));
            assert(before + (component(segment) + components_behind(path@, i + 1, i + 1)) =~= (
            before + component(segment)) + components_behind(path@, i + 1, i + 1));
            start = i + 1;
        }
        i += 1;
    }
    push_component(&mut parts, slice_subrange(path, start, path.len()));
    parts
}

/// Computes [`is_same_path`].
pub fn same_path(a: &[u8], b: &[u8]) -> (same: bool)
    ensures
        same == is_same_path(a@, b@),
{
    let rooted = (a.len() > 0 && a[0] == 47) == (b.len() > 0 && b[0] == 47);
    let here = (a.len() > 0 && a[0] == 46 && (a.len() == 1 || a[1] == 47)) == (b.len() > 0 && b[0]
        == 46 && (b.len() == 1 || b[1] == 47));
    if !rooted || !here {
        return false;
    }
    let x = path_segments(a);
    let y = path_segments(b);
    let ghost (p, q) = (component_views(x@), component_views(y@));
    if x.len() != y.len() {
        assert(p.len() != q.len());
        return false;
    }
    let mut i: usize = 0;
    while i < x.len()
        invariant
            i <= x@.len() == y@.len(),
            p == component_views(x@),
            q == component_views(y@),
            p == components_behind(a@, 0, 0),
            q == components_behind(b@, 0, 0),
            forall|k: int| 0 <= k < i ==> p[k] == q[k],
        decreases x@.len() - i,
    {
        if !same_bytes(x[i].as_slice(), y[i].as_slice()) {
            assert(p[i as int] != q[i as int]);
            return false;
        }
        i += 1;
    }
    assert(p =~= q);
    true
}

/// Whether two optional paths are the same.
pub open spec fn is_same_path_option(a: Option<Seq<u8>>, b: Option<Seq<u8>>) -> bool {
    match (a, b) {
        (Some(a), Some(b)) => is_same_path(a, b),
        (None, None) => true,
        _ => false,
    }
}

/// Computes [`is_same_path_option`].
pub(crate) fn same_path_option(a: &Option<Vec<u8>>, b: &Option<Vec<u8>>) -> (same: bool)
    ensures
        same == is_same_path_option(bytes_option(*a), bytes_option(*b)),
{
    match (a, b) {
        (Some(a), Some(b)) => same_path(a.as_slice(), b.as_slice()),
        (None, None) => true,
        _ => false,
    }
}

/// The environment value, unless it is missing or empty.
pub open spec fn nonempty(value: Option<Seq<u8>>) -> Option<Seq<u8>> {
    match value {
        Some(v) => if v.len() > 0 {
            Some(v)
        } else {
            None
        },
        None => None,
    }
}

/// The content of an optional byte string.
pub open spec fn bytes_option(value: Option<Vec<u8>>) -> Option<Seq<u8>> {
    match value {
        Some(v) => Some(v@),
        None => None,
    }
}

} // verus!
