use vstd::prelude::*;
use vstd::string::StrSliceExecFns;
use crate::text::{has_prefix, has_suffix};

verus! {

/// Whether `s` starts with `p`.
pub fn starts_with(s: &str, p: &str) -> (r: bool)
    ensures
        r == has_prefix(s@, p@),
{
    let n = s.unicode_len();
    let m = p.unicode_len();
    if m > n {
        return false;
    }
    let mut i: usize = 0;
    while i < m
        invariant
            n == s@.len(),
            m == p@.len(),
            m <= n,
            0 <= i <= m,
            forall|k: int| 0 <= k < i ==> s@[k] == p@[k],
        decreases m - i,
    {
        if s.get_char(i) != p.get_char(i) {
            assert(s@.subrange(0, m as int)[i as int] != p@[i as int]);
            return false;
        }
        i = i + 1;
    }
    assert(s@.subrange(0, m as int) =~= p@);
    true
}

/// Whether `s` ends with `p`.
pub fn ends_with(s: &str, p: &str) -> (r: bool)
    ensures
        r == has_suffix(s@, p@),
{
    let n = s.unicode_len();
    let m = p.unicode_len();
    if m > n {
        return false;
    }
    let off = n - m;
    let mut i: usize = 0;
    while i < m
        invariant
            n == s@.len(),
            m == p@.len(),
            off == n - m,
            0 <= i <= m,
            forall|k: int| 0 <= k < i ==> s@[off + k] == p@[k],
        decreases m - i,
    {
        if s.get_char(off + i) != p.get_char(i) {
            assert(s@.subrange(off as int, n as int)[i as int] != p@[i as int]);
            return false;
        }
        i = i + 1;
    }
    assert(s@.subrange(off as int, n as int) =~= p@);
    true
}

/// Name of the module stored at `path` under the directory `root` with
/// file extension `ext`: the path with both taken off.
pub open spec fn module_name_of(path: Seq<char>, root: Seq<char>, ext: Seq<char>) -> Option<Seq<char>> {
    if has_prefix(path, root) && has_suffix(path.subrange(root.len() as int, path.len() as int), ext) {
        Some(path.subrange(root.len() as int, path.len() - ext.len()))
    } else {
        None
    }
}

/// The module name for a discovered file, if the path has the directory as
/// prefix and the extension as suffix.
pub fn module_name(path: &str, root: &str, ext: &str) -> (r: Option<String>)
    ensures
        r matches Some(n) ==> module_name_of(path@, root@, ext@) == Some(n@),
        r is None ==> module_name_of(path@, root@, ext@) is None,
{
    if !starts_with(path, root) {
        return None;
    }
    let n = path.unicode_len();
    let from = root.unicode_len();
    let rest = path.substring_char(from, n);
    if !ends_with(rest, ext) {
        return None;
    }
    let to = n - ext.unicode_len();
    let name = path.substring_char(from, to);
    Some(name.to_owned())
}

/// Path prefixes (ending in '/') and exact names left out of discovery.
pub open spec fn deny_list() -> Seq<Seq<char>> {
    seq!["vmlinux"@, ".vmlinux.export"@, "scripts/dtc/"@, "scripts/kconfig/"@, "scripts/mod/"@]
}

/// `name` is left out by `item`: a prefix if `item` ends in '/', else an
/// exact name.
pub open spec fn denied_by(name: Seq<char>, item: Seq<char>) -> bool {
    if item.len() > 0 && item.last() == '/' {
        has_prefix(name, item)
    } else {
        name == item
    }
}

/// Whether discovery leaves the module `name` out.
pub fn be_in_black_list(name: &str) -> (r: bool)
    ensures
        r == exists|i: int| 0 <= i < deny_list().len() && #[trigger] denied_by(name@, deny_list()[i]),
{
    let items: Vec<&str> = vec!["vmlinux", ".vmlinux.export", "scripts/dtc/", "scripts/kconfig/", "scripts/mod/"];
    assert(items@.map_values(|s: &str| s@) =~= deny_list());
    let mut i: usize = 0;
    while i < items.len()
        invariant
            0 <= i <= items@.len(),
            items@.map_values(|s: &str| s@) == deny_list(),
            forall|k: int| 0 <= k < i ==> !#[trigger] denied_by(name@, deny_list()[k]),
        decreases items@.len() - i,
    {
        let item = items[i];
        assert(item@ == deny_list()[i as int]);
        let m = item.unicode_len();
        let hit = if m > 0 && item.get_char(m - 1) == '/' {
            starts_with(name, item)
        } else {
            name.unicode_len() == m && starts_with(name, item)
        };
        if hit {
            proof {
                if !(m > 0 && item@.last() == '/') {
                    assert(name@ =~= item@) by {
                        assert(name@.subrange(0, m as int) == item@);
                    }
                }
                assert(denied_by(name@, deny_list()[i as int]));
            }
            return true;
        }
        proof {
            if !(m > 0 && item@.last() == '/') && name@ == item@ {
                assert(name@.subrange(0, m as int) =~= name@);
            }
        }
        i = i + 1;
    }
    false
}

/// Index after `s[..end]` once trailing '/' are dropped.
pub open spec fn trimmed_end(s: Seq<char>, end: int) -> int
    decreases end,
{
    if end > 0 && s[end - 1] == '/' {
        trimmed_end(s, end - 1)
    } else {
        end
    }
}

/// Start of the component that ends at `end`.
pub open spec fn component_start(s: Seq<char>, end: int) -> int
    decreases end,
{
    if end > 0 && s[end - 1] != '/' {
        component_start(s, end - 1)
    } else {
        end
    }
}

/// Last '/'-separated component of a path, trailing '/' ignored.
pub open spec fn last_component(s: Seq<char>) -> Seq<char> {
    let e = trimmed_end(s, s.len() as int);
    s.subrange(component_start(s, e), e)
}

/// The last component of `path`, as a sample or version label.
pub fn get_last(path: &str) -> (r: String)
    ensures
        r@ == last_component(path@),
{
    let n = path.unicode_len();
    let mut end: usize = n;
    while end > 0 && path.get_char(end - 1) == '/'
        invariant
            n == path@.len(),
            0 <= end <= n,
            trimmed_end(path@, end as int) == trimmed_end(path@, n as int),
        decreases end,
    {
        end = end - 1;
    }
    let mut start: usize = end;
    while start > 0 && path.get_char(start - 1) != '/'
        invariant
            n == path@.len(),
            0 <= start <= end <= n,
            end == trimmed_end(path@, n as int),
            component_start(path@, start as int) == component_start(path@, end as int),
        decreases start,
    {
        start = start - 1;
    }
    path.substring_char(start, end).to_owned()
}

} // verus!
