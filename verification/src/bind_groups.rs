//! The checks made when a bind group is built from a template: each value
//! must match the kind of its binding, there must not be more values than
//! bindings, and at most one value may fill the template's uniform buffer.

use vstd::prelude::*;

verus! {

/// The kind of a binding in a template, or of a value given for one.
#[derive(Clone, Copy, Debug, PartialEq, Eq, Structural)]
pub enum BindGroupEntryKind {
    /// A uniform buffer.
    Buffer,
    /// A texture sampler.
    Sampler,
    /// A view into a texture.
    TextureView,
}

/// Why a bind group cannot be built from a template and values.
#[derive(Clone, Copy, Debug, PartialEq, Eq, Structural)]
pub enum BindGroupError {
    /// There are values but no binding for one of them.
    InvalidParameterCount,
    /// Two values would fill the template's one uniform buffer.
    MultipleUniformBuffers,
    /// A buffer value has no uniform buffer made for it.
    MissingUniformBuffer,
    /// A value does not match the kind of its binding.
    IncompatibleParameter,
}

/// Two of the values are buffers.
pub open spec fn two_buffers(data: Seq<BindGroupEntryKind>) -> bool {
    exists|i: int, j: int|
        0 <= i < j < data.len() && #[trigger] data[i] == BindGroupEntryKind::Buffer && #[trigger] data[j]
            == BindGroupEntryKind::Buffer
}

/// The value that fills the template's uniform buffer: when the first
/// binding is a buffer, the buffer value among the values, if there is one.
pub open spec fn buffer_index(layout: Seq<BindGroupEntryKind>, data: Seq<BindGroupEntryKind>) -> Option<int> {
    if layout.len() > 0 && layout[0] == BindGroupEntryKind::Buffer && exists|i: int|
        0 <= i < data.len() && #[trigger] data[i] == BindGroupEntryKind::Buffer {
        Some(choose|i: int| 0 <= i < data.len() && #[trigger] data[i] == BindGroupEntryKind::Buffer)
    } else {
        None
    }
}

/// What is wrong with value `i`, bound at binding `i`: there is no such
/// binding, the binding is of another kind, or the value is a buffer and no
/// uniform buffer was made.
pub open spec fn slot_error(
    layout: Seq<BindGroupEntryKind>,
    data: Seq<BindGroupEntryKind>,
    has_buffer: bool,
    i: int,
) -> Option<BindGroupError> {
    if i >= layout.len() {
        Some(BindGroupError::InvalidParameterCount)
    } else if layout[i] != data[i] {
        Some(BindGroupError::IncompatibleParameter)
    } else if data[i] == BindGroupEntryKind::Buffer && !has_buffer {
        Some(BindGroupError::MissingUniformBuffer)
    } else {
        None
    }
}

/// Value `i` is the first one with something wrong.
pub open spec fn first_bad(
    layout: Seq<BindGroupEntryKind>,
    data: Seq<BindGroupEntryKind>,
    has_buffer: bool,
    i: int,
) -> bool {
    &&& 0 <= i < data.len()
    &&& slot_error(layout, data, has_buffer, i) is Some
    &&& forall|j: int| 0 <= j < i ==> #[trigger] slot_error(layout, data, has_buffer, j) is None
}

/// The outcome of building a bind group. When the first binding is a
/// buffer, two buffer values are refused; then the first value with
/// something wrong gives the error; otherwise the result is the value that
/// fills the uniform buffer, if any.
pub open spec fn bind_group_outcome(layout: Seq<BindGroupEntryKind>, data: Seq<BindGroupEntryKind>) -> Result<
    Option<int>,
    BindGroupError,
> {
    let has_buffer = buffer_index(layout, data) is Some;
    if layout.len() > 0 && layout[0] == BindGroupEntryKind::Buffer && two_buffers(data) {
        Err(BindGroupError::MultipleUniformBuffers)
    } else if exists|i: int| #[trigger] first_bad(layout, data, has_buffer, i) {
        let i = choose|i: int| #[trigger] first_bad(layout, data, has_buffer, i);
        Err(slot_error(layout, data, has_buffer, i)->Some_0)
    } else {
        Ok(buffer_index(layout, data))
    }
}

/// When some value has something wrong, a first such value exists.
proof fn lemma_first_bad_exists(
    layout: Seq<BindGroupEntryKind>,
    data: Seq<BindGroupEntryKind>,
    has_buffer: bool,
    i: int,
)
    requires
        0 <= i < data.len(),
        slot_error(layout, data, has_buffer, i) is Some,
    ensures
        exists|k: int| #[trigger] first_bad(layout, data, has_buffer, k),
    decreases i,
{
    if forall|j: int| 0 <= j < i ==> #[trigger] slot_error(layout, data, has_buffer, j) is None {
        assert(first_bad(layout, data, has_buffer, i));
    } else {
        let j = choose|j: int| 0 <= j < i && !(#[trigger] slot_error(layout, data, has_buffer, j) is None);
        lemma_first_bad_exists(layout, data, has_buffer, j);
    }
}

/// Law: a value with no binding, or whose kind differs from the kind of
/// its binding, makes building the bind group fail. So a bind group is only
/// built when there are no more values than bindings and every value has
/// the kind of its binding.
pub proof fn lemma_mismatch_refused(layout: Seq<BindGroupEntryKind>, data: Seq<BindGroupEntryKind>)
    ensures
        forall|i: int|
            #![trigger data[i]]
            0 <= i < data.len() && i < layout.len() && layout[i] != data[i] ==> bind_group_outcome(layout, data) is Err,
        data.len() > layout.len() ==> bind_group_outcome(layout, data) is Err,
        bind_group_outcome(layout, data) is Ok ==> data.len() <= layout.len() && forall|i: int|
            #![trigger data[i]]
            0 <= i < data.len() ==> layout[i] == data[i],
{
    let has_buffer = buffer_index(layout, data) is Some;
    assert forall|i: int|
        #![trigger data[i]]
        0 <= i < data.len() && (i >= layout.len() || layout[i] != data[i]) implies bind_group_outcome(
            layout,
            data,
        ) is Err by {
        lemma_bad_slot_refused(layout, data, i);
    }
    if data.len() > layout.len() {
        lemma_bad_slot_refused(layout, data, layout.len() as int);
    }
    assert forall|i: int|
        #![trigger data[i]]
        bind_group_outcome(layout, data) is Ok && 0 <= i < data.len() implies layout[i] == data[i] by {
        if i >= layout.len() || layout[i] != data[i] {
            lemma_bad_slot_refused(layout, data, i);
        }
    }
}

/// A value with no binding, or of another kind than its binding, makes
/// building the bind group fail.
proof fn lemma_bad_slot_refused(layout: Seq<BindGroupEntryKind>, data: Seq<BindGroupEntryKind>, i: int)
    requires
        0 <= i < data.len(),
        i >= layout.len() || layout[i] != data[i],
    ensures
        bind_group_outcome(layout, data) is Err,
{
    let has_buffer = buffer_index(layout, data) is Some;
    assert(slot_error(layout, data, has_buffer, i) is Some);
    lemma_first_bad_exists(layout, data, has_buffer, i);
}

/// Law: the value that fills the uniform buffer is a buffer value, the
/// first binding is a buffer, and no other value is a buffer.
pub proof fn lemma_found_is_the_one_buffer(layout: Seq<BindGroupEntryKind>, data: Seq<BindGroupEntryKind>)
    ensures
        bind_group_outcome(layout, data) matches Ok(Some(f)) ==> {
            &&& 0 <= f < data.len()
            &&& data[f] == BindGroupEntryKind::Buffer
            &&& layout.len() > 0 && layout[0] == BindGroupEntryKind::Buffer
            &&& forall|j: int| 0 <= j < data.len() && j != f ==> #[trigger] data[j] != BindGroupEntryKind::Buffer
        },
        bind_group_outcome(layout, data) matches Ok(None) ==> forall|j: int|
            0 <= j < data.len() ==> #[trigger] data[j] != BindGroupEntryKind::Buffer,
        layout.len() > 0 && layout[0] == BindGroupEntryKind::Buffer && two_buffers(data) ==> bind_group_outcome(
            layout,
            data,
        ) == Err::<Option<int>, BindGroupError>(BindGroupError::MultipleUniformBuffers),
{
    if bind_group_outcome(layout, data) is Ok {
        assert forall|j: int| 0 <= j < data.len() && #[trigger] data[j] == BindGroupEntryKind::Buffer
            implies buffer_index(layout, data) is Some by {
            let has_buffer = buffer_index(layout, data) is Some;
            if !has_buffer {
                assert(slot_error(layout, data, has_buffer, j) is Some);
                lemma_first_bad_exists(layout, data, has_buffer, j);
            }
        }
    }
    if let Ok(Some(f)) = bind_group_outcome(layout, data) {
        assert forall|j: int| 0 <= j < data.len() && j != f implies #[trigger] data[j] != BindGroupEntryKind::Buffer by {
            if data[j] == BindGroupEntryKind::Buffer {
                if j < f {
                    assert(data[j] == BindGroupEntryKind::Buffer && data[f] == BindGroupEntryKind::Buffer);
                } else {
                    assert(data[f] == BindGroupEntryKind::Buffer && data[j] == BindGroupEntryKind::Buffer);
                }
                assert(two_buffers(data));
            }
        }
    }
}

/// Checks the values `data` against the template `layout` and returns the
/// index of the value that fills the template's uniform buffer, if any.
/// Value `i` is then bound at binding `i`.
pub fn check_bind_group(layout: &Vec<BindGroupEntryKind>, data: &Vec<BindGroupEntryKind>) -> (r: Result<
    Option<usize>,
    BindGroupError,
>)
    ensures
        match r {
            Ok(found) => bind_group_outcome(layout@, data@) == Ok::<Option<int>, BindGroupError>(
                match found {
                    Some(i) => Some(i as int),
                    None => None,
                },
            ),
            Err(e) => bind_group_outcome(layout@, data@) == Err::<Option<int>, BindGroupError>(e),
        },
        forall|i: int|
            #![trigger data@[i]]
            0 <= i < data@.len() && i < layout@.len() && layout@[i] != data@[i] ==> r is Err,
        data@.len() > layout@.len() ==> r is Err,
        r matches Ok(Some(f)) ==> f < data@.len() && data@[f as int] == BindGroupEntryKind::Buffer,
        r matches Ok(None) ==> forall|j: int| 0 <= j < data@.len() ==> #[trigger] data@[j] != BindGroupEntryKind::Buffer,
        layout@.len() > 0 && layout@[0] == BindGroupEntryKind::Buffer && two_buffers(data@) ==> r == Err::<
            Option<usize>,
            BindGroupError,
        >(BindGroupError::MultipleUniformBuffers),
{
    proof {
        lemma_mismatch_refused(layout@, data@);
        lemma_found_is_the_one_buffer(layout@, data@);
    }
    let ghost l = layout@;
    let ghost d = data@;
    let first_is_buffer = layout.len() > 0 && layout[0] == BindGroupEntryKind::Buffer;
    let mut found: Option<usize> = None;
    let mut i: usize = 0;
    while i < data.len()
        invariant
            l == layout@,
            d == data@,
            i <= d.len(),
            first_is_buffer == (l.len() > 0 && l[0] == BindGroupEntryKind::Buffer),
            l.len() == 0 ==> i == 0,
            first_is_buffer ==> forall|a: int, b: int|
                0 <= a < b < i ==> !(#[trigger] d[a] == BindGroupEntryKind::Buffer && #[trigger] d[b]
                    == BindGroupEntryKind::Buffer),
            found matches Some(f) ==> first_is_buffer && f < i && d[f as int] == BindGroupEntryKind::Buffer,
            found is None ==> !first_is_buffer || forall|a: int| 0 <= a < i ==> #[trigger] d[a] != BindGroupEntryKind::Buffer,
        decreases d.len() - i,
    {
        if layout.len() == 0 {
            proof {
                assert(slot_error(l, d, buffer_index(l, d) is Some, 0) is Some);
                assert(first_bad(l, d, buffer_index(l, d) is Some, 0));
                let k = choose|k: int| #[trigger] first_bad(l, d, buffer_index(l, d) is Some, k);
                assert(k == 0) by {
                    if k > 0 {
                        assert(slot_error(l, d, buffer_index(l, d) is Some, 0) is None);
                    }
                }
            }
            return Err(BindGroupError::InvalidParameterCount);
        }
        if first_is_buffer && data[i] == BindGroupEntryKind::Buffer {
            if let Some(f) = found {
                assert(two_buffers(d)) by {
                    assert(d[f as int] == BindGroupEntryKind::Buffer && d[i as int] == BindGroupEntryKind::Buffer);
                }
                return Err(BindGroupError::MultipleUniformBuffers);
            }
            found = Some(i);
        }
        i = i + 1;
    }
    proof {
        if first_is_buffer {
            assert(!two_buffers(d));
        }
        match found {
            Some(f) => {
                let c = choose|c: int| 0 <= c < d.len() && #[trigger] d[c] == BindGroupEntryKind::Buffer;
                assert(c == f) by {
                    if c < f {
                        assert(!(d[c] == BindGroupEntryKind::Buffer && d[f as int] == BindGroupEntryKind::Buffer));
                    } else if c > f {
                        assert(!(d[f as int] == BindGroupEntryKind::Buffer && d[c] == BindGroupEntryKind::Buffer));
                    }
                }
                assert(buffer_index(l, d) == Some(f as int));
            },
            None => {
                assert(buffer_index(l, d) is None);
            },
        }
    }
    let has_buffer = found.is_some();
    let mut j: usize = 0;
    while j < data.len()
        invariant
            l == layout@,
            d == data@,
            j <= d.len(),
            has_buffer == buffer_index(l, d) is Some,
            !(l.len() > 0 && l[0] == BindGroupEntryKind::Buffer && two_buffers(d)),
            forall|k: int| 0 <= k < j ==> #[trigger] slot_error(l, d, has_buffer, k) is None,
        decreases d.len() - j,
    {
        let bad = if j >= layout.len() {
            Some(BindGroupError::InvalidParameterCount)
        } else if layout[j] != data[j] {
            Some(BindGroupError::IncompatibleParameter)
        } else if data[j] == BindGroupEntryKind::Buffer && !has_buffer {
            Some(BindGroupError::MissingUniformBuffer)
        } else {
            None
        };
        assert(bad == slot_error(l, d, has_buffer, j as int));
        if let Some(e) = bad {
            proof {
                assert(first_bad(l, d, has_buffer, j as int));
                let k = choose|k: int| #[trigger] first_bad(l, d, has_buffer, k);
                assert(k == j) by {
                    if k < j {
                        assert(slot_error(l, d, has_buffer, k) is None);
                    } else if k > j {
                        assert(slot_error(l, d, has_buffer, j as int) is None);
                    }
                }
            }
            return Err(e);
        }
        j = j + 1;
    }
    proof {
        assert forall|k: int| !#[trigger] first_bad(l, d, has_buffer, k) by {
            if 0 <= k < d.len() {
                assert(slot_error(l, d, has_buffer, k) is None);
            }
        }
    }
    Ok(found)
}

} // verus!
