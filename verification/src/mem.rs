use vstd::prelude::*;

verus! {

/// `data` after the `len` bytes at `from` were copied to `to`, as `memmove` copies
/// (the source is read as it was before the copy, also where the ranges overlap).
pub open spec fn spec_mem_moved(data: Seq<u8>, from: int, to: int, len: int) -> Seq<u8> {
    Seq::new(data.len(), |i: int| if to <= i < to + len { data[from + (i - to)] } else { data[i] })
}

/// `dst` after the `len` bytes of `src` at `from` were copied into it at `to`.
pub open spec fn spec_mem_copied(dst: Seq<u8>, src: Seq<u8>, from: int, to: int, len: int) -> Seq<u8> {
    Seq::new(dst.len(), |i: int| if to <= i < to + len { src[from + (i - to)] } else { dst[i] })
}

/// `data` after the `len` bytes at `from` were set to `val`.
pub open spec fn spec_mem_filled(data: Seq<u8>, from: int, len: int, val: u8) -> Seq<u8> {
    Seq::new(data.len(), |i: int| if from <= i < from + len { val } else { data[i] })
}

/// Moves `len` bytes of `data` from offset `from` to offset `to`; the ranges may overlap.
pub fn self_mem_move(data: &mut Vec<u8>, from: usize, to: usize, len: usize)
    requires
        from + len <= old(data).len(),
        to + len <= old(data).len(),
    ensures
        final(data)@ == spec_mem_moved(old(data)@, from as int, to as int, len as int),
{
    let ghost orig = data@;
    if to <= from {
        let mut i: usize = 0;
        while i < len
            invariant
                from + len <= data.len(),
                to + len <= data.len(),
                to <= from,
                i <= len,
                data@.len() == orig.len(),
                forall|j: int|
                    #![trigger data@[j]]
                    0 <= j < orig.len() ==> data@[j] == (if to <= j < to + i {
                        orig[from + (j - to)]
                    } else {
                        orig[j]
                    }),
            decreases len - i,
        {
            let b = data[from + i];
            data.set(to + i, b);
            i = i + 1;
        }
    } else {
        let mut i: usize = len;
        while i > 0
            invariant
                from + len <= data.len(),
                to + len <= data.len(),
                from < to,
                i <= len,
                data@.len() == orig.len(),
                forall|j: int|
                    #![trigger data@[j]]
                    0 <= j < orig.len() ==> data@[j] == (if to + i <= j < to + len {
                        orig[from + (j - to)]
                    } else {
                        orig[j]
                    }),
            decreases i,
        {
            i = i - 1;
            let b = data[from + i];
            data.set(to + i, b);
        }
    }
    assert(data@ =~= spec_mem_moved(orig, from as int, to as int, len as int));
}

/// Copies `len` bytes of `src` starting at `from` into `dst` starting at `to`.
pub fn mem_move(dst: &mut Vec<u8>, src: &[u8], from: usize, to: usize, len: usize)
    requires
        from + len <= src@.len(),
        to + len <= old(dst).len(),
    ensures
        final(dst)@ == spec_mem_copied(old(dst)@, src@, from as int, to as int, len as int),
{
    let ghost orig = dst@;
    let mut i: usize = 0;
    while i < len
        invariant
            from + len <= src.len(),
            to + len <= dst.len(),
            i <= len,
            dst@.len() == orig.len(),
            forall|j: int|
                #![trigger dst@[j]]
                0 <= j < orig.len() ==> dst@[j] == (if to <= j < to + i {
                    src@[from + (j - to)]
                } else {
                    orig[j]
                }),
        decreases len - i,
    {
        let b = src[from + i];
        dst.set(to + i, b);
        i = i + 1;
    }
    assert(dst@ =~= spec_mem_copied(orig, src@, from as int, to as int, len as int));
}

/// Sets the `len` bytes of `data` starting at `from` to `val`.
pub fn mem_set(data: &mut Vec<u8>, from: usize, len: usize, val: u8)
    requires
        from + len <= old(data).len(),
    ensures
        final(data)@ == spec_mem_filled(old(data)@, from as int, len as int, val),
{
    let ghost orig = data@;
    let mut i: usize = 0;
    while i < len
        invariant
            from + len <= data.len(),
            i <= len,
            data@.len() == orig.len(),
            forall|j: int|
                #![trigger data@[j]]
                0 <= j < orig.len() ==> data@[j] == (if from <= j < from + i {
                    val
                } else {
                    orig[j]
                }),
        decreases len - i,
    {
        data.set(from + i, val);
        i = i + 1;
    }
    assert(data@ =~= spec_mem_filled(orig, from as int, len as int, val));
}


/// Law: moving `len` bytes from `from` to `to` leaves at `to` the `len` bytes that stood
/// at `from` before the move, and every other byte and the length as they were.
pub proof fn lemma_mem_moved_parts(data: Seq<u8>, from: int, to: int, len: int)
    requires
        0 <= from,
        0 <= to,
        0 <= len,
        from + len <= data.len(),
        to + len <= data.len(),
    ensures
        spec_mem_moved(data, from, to, len).len() == data.len(),
        spec_mem_moved(data, from, to, len).subrange(to, to + len) == data.subrange(
            from,
            from + len,
        ),
        forall|i: int|
            0 <= i < data.len() && !(to <= i < to + len) ==> spec_mem_moved(data, from, to, len)[i]
                == data[i],
{
    assert(spec_mem_moved(data, from, to, len).subrange(to, to + len) =~= data.subrange(
        from,
        from + len,
    ));
}

/// Law: filling `len` bytes at `from` with `val` makes each of them `val` and leaves
/// every other byte and the length as they were.
pub proof fn lemma_mem_filled_parts(data: Seq<u8>, from: int, len: int, val: u8)
    requires
        0 <= from,
        0 <= len,
        from + len <= data.len(),
    ensures
        spec_mem_filled(data, from, len, val).len() == data.len(),
        spec_mem_filled(data, from, len, val).subrange(from, from + len) == Seq::new(
            len as nat,
            |k: int| val,
        ),
        forall|i: int|
            0 <= i < data.len() && !(from <= i < from + len) ==> spec_mem_filled(data, from, len, val)[i]
                == data[i],
{
    assert(spec_mem_filled(data, from, len, val).subrange(from, from + len) =~= Seq::new(
        len as nat,
        |k: int| val,
    ));
}

/// Law: copying `len` bytes of `src` at `from` into `dst` at `to` leaves at `to` those
/// bytes of `src`, and every other byte of `dst` and its length as they were.
pub proof fn lemma_mem_copied_parts(dst: Seq<u8>, src: Seq<u8>, from: int, to: int, len: int)
    requires
        0 <= from,
        0 <= to,
        0 <= len,
        from + len <= src.len(),
        to + len <= dst.len(),
    ensures
        spec_mem_copied(dst, src, from, to, len).len() == dst.len(),
        spec_mem_copied(dst, src, from, to, len).subrange(to, to + len) == src.subrange(
            from,
            from + len,
        ),
        forall|i: int|
            0 <= i < dst.len() && !(to <= i < to + len) ==> spec_mem_copied(dst, src, from, to, len)[i]
                == dst[i],
{
    assert(spec_mem_copied(dst, src, from, to, len).subrange(to, to + len) =~= src.subrange(
        from,
        from + len,
    ));
}

} // verus!
