use vstd::prelude::*;

verus! {

/// `pattern` occurs in `s` at position `i`.
pub open spec fn occurs_at(s: Seq<u8>, pattern: Seq<u8>, i: int) -> bool {
    0 <= i && i + pattern.len() <= s.len() && s.subrange(i, i + pattern.len()) == pattern
}

/// The closing tag of a property element: `</property>`.
pub open spec fn property_end_tag() -> Seq<u8> {
    seq![60u8, 47u8, 112u8, 114u8, 111u8, 112u8, 101u8, 114u8, 116u8, 121u8, 62u8]
}

/// The opening of a property element: `<property`.
pub open spec fn property_start_tag() -> Seq<u8> {
    seq![60u8, 112u8, 114u8, 111u8, 112u8, 101u8, 114u8, 116u8, 121u8]
}

fn matches_at(s: &[u8], pattern: &[u8], i: usize) -> (r: bool)
    requires
        i <= s@.len(),
    ensures
        r == occurs_at(s@, pattern@, i as int),
{
    let n = s.len();
    if pattern.len() > n - i {
        return false;
    }
    let mut j: usize = 0;
    while j < pattern.len()
        invariant
            j <= pattern@.len(),
            n == s@.len(),
            i + pattern@.len() <= n,
            forall|t: int| 0 <= t < j ==> s@[i + t] == pattern@[t],
        decreases pattern@.len() - j,
    {
        if s[i + j] != pattern[j] {
            assert(s@.subrange(i as int, i + pattern@.len())[j as int] != pattern@[j as int]);
            return false;
        }
        j = j + 1;
    }
    assert(s@.subrange(i as int, i + pattern@.len()) =~= pattern@);
    true
}

/// The first position at or after `from` where `pattern` occurs in `s`.
pub fn find_from(s: &[u8], pattern: &[u8], from: usize) -> (r: Option<usize>)
    requires
        from <= s@.len(),
    ensures
        match r {
            Some(i) => from <= i && occurs_at(s@, pattern@, i as int)
                && forall|j: int| from <= j < i ==> !occurs_at(s@, pattern@, j),
            None => forall|j: int| from <= j ==> !occurs_at(s@, pattern@, j),
        },
{
    let mut i: usize = from;
    while i < s.len()
        invariant
            from <= i <= s@.len(),
            forall|j: int| from <= j < i ==> !occurs_at(s@, pattern@, j),
        decreases s@.len() - i,
    {
        if matches_at(s, pattern, i) {
            return Some(i);
        }
        i = i + 1;
    }
    if matches_at(s, pattern, i) {
        return Some(i);
    }
    None
}

/// Whether `pattern` occurs anywhere in `s`.
pub fn contains_pattern(s: &[u8], pattern: &[u8]) -> (r: bool)
    ensures
        r == exists|j: int| occurs_at(s@, pattern@, j),
{
    match find_from(s, pattern, 0) {
        Some(i) => true,
        None => false,
    }
}

/// The `k`-th cut lies just after the first `</property>` that starts at or
/// after the previous cut, or after the start for the first.
pub open spec fn cut_ok(buffer: Seq<u8>, cuts: Seq<usize>, k: int) -> bool {
    let prev = if k == 0 { 0 } else { cuts[k - 1] as int };
    let tag_at = cuts[k] - property_end_tag().len();
    &&& prev <= tag_at
    &&& occurs_at(buffer, property_end_tag(), tag_at)
    &&& forall|j: int| prev <= j < tag_at ==> !occurs_at(buffer, property_end_tag(), j)
}

/// The positions at which a buffer of request bytes is cut into property
/// elements: each cut lies just after the first `</property>` that starts at
/// or after the previous cut (or the start). Bytes after the last cut wait
/// for more input.
pub fn frame_ends(buffer: &[u8]) -> (cuts: Vec<usize>)
    ensures
        forall|k: int| 0 <= k < cuts@.len() ==> #[trigger] cut_ok(buffer@, cuts@, k),
        forall|j: int| (if cuts@.len() == 0 { 0 } else { cuts@.last() as int }) <= j
            ==> !occurs_at(buffer@, property_end_tag(), j),
{
    let tag: Vec<u8> = vec![60u8, 47u8, 112u8, 114u8, 111u8, 112u8, 101u8, 114u8, 116u8, 121u8, 62u8];
    assert(tag@ =~= property_end_tag());
    let mut cuts: Vec<usize> = Vec::new();
    let mut from: usize = 0;
    while from <= buffer.len()
        invariant
            tag@ == property_end_tag(),
            from <= buffer@.len(),
            from == (if cuts@.len() == 0 { 0 } else { cuts@.last() as int }),
            forall|k: int| 0 <= k < cuts@.len() ==> #[trigger] cut_ok(buffer@, cuts@, k),
        decreases buffer@.len() + 1 - from,
    {
        match find_from(buffer, tag.as_slice(), from) {
            Some(i) => {
                let end = i + tag.len();
                let ghost old_cuts = cuts@;
                cuts.push(end);
                assert forall|k: int| 0 <= k < cuts@.len() implies #[trigger] cut_ok(buffer@, cuts@, k) by {
                    if k < old_cuts.len() {
                        assert(cut_ok(buffer@, old_cuts, k));
                        assert(cuts@[k] == old_cuts[k]);
                        if k > 0 {
                            assert(cuts@[k - 1] == old_cuts[k - 1]);
                        }
                    }
                }
                from = end;
            },
            None => {
                return cuts;
            },
        }
    }
    cuts
}

/// Whether `buffer` holds the opening of a property element.
pub fn has_property_start(buffer: &[u8]) -> (r: bool)
    ensures
        r == exists|j: int| occurs_at(buffer@, property_start_tag(), j),
{
    let tag: Vec<u8> = vec![60u8, 112u8, 114u8, 111u8, 112u8, 101u8, 114u8, 116u8, 121u8];
    assert(tag@ =~= property_start_tag());
    contains_pattern(buffer, tag.as_slice())
}

} // verus!
