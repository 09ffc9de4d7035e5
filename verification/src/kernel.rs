//! What calls into the kernel tell about processes and the system.

use vstd::prelude::*;

verus! {

// ---------------------------------------------------------------------------
// System integrity protection
// ---------------------------------------------------------------------------

/// The bit of the active configuration that allows unrestricted `dtrace`.
pub const CSR_ALLOW_UNRESTRICTED_DTRACE: u32 = 32;

/// The active configuration was had and allows unrestricted `dtrace`.
pub open spec fn csr_allows(status: i32, config: u32) -> bool {
    status == 0 && config & CSR_ALLOW_UNRESTRICTED_DTRACE == CSR_ALLOW_UNRESTRICTED_DTRACE
}

/// Whether `dtrace` may be used without restriction. `status` is what
/// `csr_get_active_config` returned, and `config` what it stored.
pub fn csr_allow_unrestricted_dtrace(status: i32, config: u32) -> (r: bool)
    ensures
        r == (status == 0 && (config / 32) % 2 == 1),
        r == csr_allows(status, config),
{
    if status != 0 {
        return false;
    }
    assert((config & 32 == 32) == ((config / 32) % 2 == 1)) by (bit_vector);
    config & CSR_ALLOW_UNRESTRICTED_DTRACE == CSR_ALLOW_UNRESTRICTED_DTRACE
}

// ---------------------------------------------------------------------------
// Translated processes
// ---------------------------------------------------------------------------

/// A whole record was stored, and all the bits of `translated` are among its
/// flags.
pub open spec fn runs_translated(
    status: i32,
    size: usize,
    record_size: usize,
    flags: u32,
    translated: u32,
) -> bool {
    status == 0 && size >= record_size && flags & translated == translated
}

/// Whether a process runs translated. `status` is what `sysctl` returned,
/// `size` the number of bytes that it stored, `record_size` the number of
/// bytes of a whole record, `flags` the flags of the process in the record, and
/// `translated` the bits among them that mark a translated process.
pub fn proc_is_translated(
    status: i32,
    size: usize,
    record_size: usize,
    flags: u32,
    translated: u32,
) -> (r: bool)
    ensures
        r == (status == 0 && size >= record_size && flags & translated == translated),
        r == runs_translated(status, size, record_size, flags, translated),
{
    if status == 0 && size >= record_size {
        flags & translated == translated
    } else {
        false
    }
}

// ---------------------------------------------------------------------------
// Open files
// ---------------------------------------------------------------------------

/// The bytes of one entry in the list of open files.
pub const FD_INFO_SIZE: u32 = 8;

/// The bytes that the list is first given room for: 64 entries.
pub const FD_BUFFER_SIZE: usize = 512;

/// What to do after the kernel was asked for the list of open files.
#[derive(Debug, Clone, Copy, PartialEq, Eq, Structural)]
pub enum FdStep {
    /// There is no such list.
    Failed,
    /// The list may have been cut off: ask again, with room for this many
    /// bytes at least.
    Grow(usize),
    /// The number of open files.
    Count(u32),
}

/// What `actual`, the size of the list as the kernel gave it, comes to for a
/// buffer of `capacity` bytes.
pub open spec fn fd_step(actual: int, capacity: nat) -> FdStep {
    if actual < 0 {
        FdStep::Failed
    } else if actual >= capacity {
        FdStep::Grow((2 * capacity) as usize)
    } else {
        FdStep::Count((actual / 8) as u32)
    }
}

/// Reads the answer `actual_buf_size` of the kernel to a request with a buffer
/// of `capacity` bytes.
pub fn proc_fds(actual_buf_size: i32, capacity: usize) -> (r: FdStep)
    ensures
        r == fd_step(actual_buf_size as int, capacity as nat),
{
    if actual_buf_size < 0 {
        return FdStep::Failed;
    }
    let size: u32 = actual_buf_size as u32;
    if size as usize >= capacity {
        return FdStep::Grow(capacity * 2);
    }
    FdStep::Count(size / FD_INFO_SIZE)
}

/// A kernel that lists `n` open files, as far as there is room, is read right:
/// the files are counted if the list leaves room in the buffer, and are asked
/// for again with twice the room if not.
pub proof fn law_open_files_are_counted(n: u32, capacity: usize)
    requires
        FD_INFO_SIZE * n <= i32::MAX,
    ensures
        ({
            let needed = FD_INFO_SIZE * n;
            let actual = if needed < capacity {
                needed
            } else {
                capacity as int
            };
            fd_step(actual, capacity as nat) == if needed < capacity {
                FdStep::Count(n)
            } else {
                FdStep::Grow((2 * capacity) as usize)
            }
        }),
{
}

/// The files that are counted take up less than the buffer: none was cut off.
pub proof fn law_count_fits_buffer(actual: i32, capacity: usize)
    ensures
        fd_step(actual as int, capacity as nat) matches FdStep::Count(n) ==> n * FD_INFO_SIZE
            <= actual < capacity,
{
}

/// The room asked for is never too much to ask for, and is twice what there
/// was.
pub proof fn law_growth_doubles(actual: i32, capacity: usize)
    ensures
        fd_step(actual as int, capacity as nat) matches FdStep::Grow(n) ==> n == 2 * capacity,
{
}

spec fn doubled(n: nat, times: nat) -> nat
    decreases times,
{
    if times == 0 {
        n
    } else {
        2 * doubled(n, (times - 1) as nat)
    }
}

proof fn lemma_at_least_doubled(capacities: Seq<usize>, i: int)
    requires
        0 <= i < capacities.len(),
        capacities[0] >= FD_BUFFER_SIZE,
        forall|j: int|
            0 <= j < capacities.len() - 1 ==> capacities[j + 1] >= 2 * #[trigger] capacities[j],
    ensures
        capacities[i] >= doubled(FD_BUFFER_SIZE as nat, i as nat),
    decreases i,
{
    if i > 0 {
        lemma_at_least_doubled(capacities, i - 1);
        assert(capacities[(i - 1) + 1] >= 2 * capacities[i - 1]);
    }
}

/// The list of open files is asked for at most 23 times: a buffer that began
/// with room for 64 entries and grew as asked 22 times is not asked to grow
/// again, whatever the kernel answers.
pub proof fn law_growth_ends(capacities: Seq<usize>, actual: i32)
    requires
        capacities.len() > 22,
        capacities[0] >= FD_BUFFER_SIZE,
        forall|j: int|
            0 <= j < capacities.len() - 1 ==> capacities[j + 1] >= 2 * #[trigger] capacities[j],
    ensures
        !(fd_step(actual as int, capacities[22] as nat) is Grow),
{
    lemma_at_least_doubled(capacities, 22);
    reveal_with_fuel(doubled, 23);
}

/// What an answer of the kernel comes to: a failure if and only if it is
/// negative, a request for twice the room if and only if it fills the buffer,
/// and else the number of whole entries in it.
pub proof fn law_every_answer_is_read(actual: i32, capacity: usize)
    ensures
        fd_step(actual as int, capacity as nat) is Failed <==> actual < 0,
        fd_step(actual as int, capacity as nat) is Grow <==> 0 <= actual && capacity <= actual,
        fd_step(actual as int, capacity as nat) matches FdStep::Grow(room) ==> room == capacity
            + capacity,
        fd_step(actual as int, capacity as nat) matches FdStep::Count(n) ==> 8 * n <= actual < 8 * n
            + 8,
{
}

/// The bit for `dtrace` alone decides: setting it allows, clearing it forbids,
/// whatever the other bits are. A configuration that could not be had allows
/// nothing.
pub proof fn law_dtrace_bit_decides(status: i32, config: u32)
    ensures
        csr_allows(0, config | 0x20),
        !csr_allows(0, config & !0x20u32),
        csr_allows(0, config) <==> config == config | 0x20,
        status != 0 ==> !csr_allows(status, config),
{
    assert((config | 0x20) & 0x20 == 0x20) by (bit_vector);
    assert((config & !0x20u32) & 0x20 != 0x20) by (bit_vector);
    assert(config & 0x20 == 0x20 <==> config == config | 0x20) by (bit_vector);
}

/// A process runs translated if its flags are had whole and hold the mark; it
/// does not if the mark is taken out, if the call failed or if less than a
/// record was stored.
pub proof fn law_translation_mark_decides(
    status: i32,
    size: usize,
    record_size: usize,
    flags: u32,
    mark: u32,
)
    requires
        mark != 0,
    ensures
        size >= record_size ==> runs_translated(0, size, record_size, flags | mark, mark),
        !runs_translated(status, size, record_size, flags & !mark, mark),
        runs_translated(0, record_size, record_size, flags, mark) <==> flags == flags | mark,
        status != 0 ==> !runs_translated(status, size, record_size, flags, mark),
        size < record_size ==> !runs_translated(status, size, record_size, flags, mark),
{
    assert((flags | mark) & mark == mark) by (bit_vector);
    assert((flags & !mark) & mark != mark) by (bit_vector)
        requires
            mark != 0,
    ;
    assert(flags & mark == mark <==> flags == flags | mark) by (bit_vector);
}

} // verus!
