//! Device files: the devices a major number names, the table of registered devices with
//! what each allows, and what reading and writing each device does. Console output is
//! collected in a `Writer` and console input comes from the line buffer.
use vstd::prelude::*;
use crate::console::{Writer, digits, print_dec};
use crate::console_input::{Input, take_input};
use crate::fs::dir::bytes_eq;

verus! {

pub const STDIN: u16 = 1;
pub const STDOUT: u16 = 2;
pub const STDERR: u16 = 3;
pub const ZERO: u16 = 4;
pub const NULL: u16 = 5;
pub const GPT0: u16 = 6;
/// Slots of the device table; slot 0 is never used.
pub const N_DEVICES: usize = 7;
/// Longest device name plus its NUL.
pub const DEVICE_NAME_BYTES: usize = 60;
/// Open for reading.
pub const OPEN_READ: usize = 1;
/// Open for writing.
pub const OPEN_WRITE: usize = 2;

/// A registered device: its name and whether it can be read and written.
pub struct Device {
    pub name: Vec<u8>,
    pub readable: bool,
    pub writable: bool,
}

/// The device table, indexed by major number.
pub struct DeviceTable {
    pub slots: Vec<Option<Device>>,
}

impl DeviceTable {
    pub open spec fn wf(&self) -> bool {
        self.slots@.len() == N_DEVICES
    }

    /// An empty table.
    pub fn new() -> (r: DeviceTable)
        ensures
            r.wf(),
            forall|m: int| 0 <= m < N_DEVICES ==> r.slots@[m] is None,
    {
        let mut slots: Vec<Option<Device>> = Vec::new();
        let mut k: usize = 0;
        while k < N_DEVICES
            invariant
                k <= N_DEVICES,
                slots@.len() == k,
                forall|m: int| 0 <= m < k ==> slots@[m] is None,
            decreases N_DEVICES - k,
        {
            slots.push(None);
            k = k + 1;
        }
        DeviceTable { slots }
    }
}

/// Whether `name` may name a device: not empty, shorter than `DEVICE_NAME_BYTES`, no NUL.
pub open spec fn valid_device_name(name: Seq<u8>) -> bool {
    0 < name.len() < DEVICE_NAME_BYTES && !name.contains(0u8)
}

/// Registers device `major` under `name`. Refused for major 0 or beyond the table, for
/// an invalid name, and for a device that can be neither read nor written.
pub fn register(t: &mut DeviceTable, major: u16, name: &[u8], readable: bool, writable: bool) -> (r: Result<(), ()>)
    requires
        old(t).wf(),
    ensures
        final(t).wf(),
        r is Ok <==> (0 < major < N_DEVICES && valid_device_name(name@) && (readable || writable)),
        r is Ok ==> final(t).slots@ == old(t).slots@.update(major as int,
            Some(Device { name: final(t).slots@[major as int]->Some_0.name, readable, writable }))
            && final(t).slots@[major as int]->Some_0.name@ == name@,
        r is Err ==> final(t).slots@ == old(t).slots@,
{
    if major == 0 || major as usize >= N_DEVICES || name.len() == 0 || name.len() >= DEVICE_NAME_BYTES || !(readable || writable) {
        return Err(());
    }
    let mut copy: Vec<u8> = Vec::new();
    let mut i: usize = 0;
    while i < name.len()
        invariant
            *t == *old(t),
            old(t).wf(),
            i <= name@.len(),
            copy@ == name@.subrange(0, i as int),
            forall|k: int| 0 <= k < i ==> name@[k] != 0,
        decreases name@.len() - i,
    {
        if name[i] == 0 {
            proof {
                assert(name@.contains(0u8));
            }
            return Err(());
        }
        copy.push(name[i]);
        proof {
            assert(copy@ =~= name@.subrange(0, i + 1));
        }
        i = i + 1;
    }
    proof {
        assert(copy@ =~= name@);
        assert(!name@.contains(0u8));
    }
    t.slots.set(major as usize, Some(Device { name: copy, readable, writable }));
    Ok(())
}


/// The devices of a booted system: stdin and zero can be read, stdout, stderr and gpt0
/// written, null both.
pub fn init() -> (r: DeviceTable)
    ensures
        r.wf(),
        r.slots@[0] is None,
        r.slots@[1] matches Some(d) && d.name@ == seq![115u8, 116u8, 100u8, 105u8, 110u8] && d.readable == true && d.writable == false,
        r.slots@[2] matches Some(d) && d.name@ == seq![115u8, 116u8, 100u8, 111u8, 117u8, 116u8] && d.readable == false && d.writable == true,
        r.slots@[3] matches Some(d) && d.name@ == seq![115u8, 116u8, 100u8, 101u8, 114u8, 114u8] && d.readable == false && d.writable == true,
        r.slots@[4] matches Some(d) && d.name@ == seq![122u8, 101u8, 114u8, 111u8] && d.readable == true && d.writable == false,
        r.slots@[5] matches Some(d) && d.name@ == seq![110u8, 117u8, 108u8, 108u8] && d.readable == true && d.writable == true,
        r.slots@[6] matches Some(d) && d.name@ == seq![103u8, 112u8, 116u8, 48u8] && d.readable == false && d.writable == true,
{
    let mut t = DeviceTable::new();
    let a1 = [115u8, 116u8, 100u8, 105u8, 110u8];
    let r1 = register(&mut t, 1, &a1, true, false);
    proof {
        assert(a1@ =~= seq![115u8, 116u8, 100u8, 105u8, 110u8]);
        assert(!seq![115u8, 116u8, 100u8, 105u8, 110u8].contains(0u8)) by {
            if seq![115u8, 116u8, 100u8, 105u8, 110u8].contains(0u8) {
                let k = choose|k: int| 0 <= k < seq![115u8, 116u8, 100u8, 105u8, 110u8].len() && seq![115u8, 116u8, 100u8, 105u8, 110u8][k] == 0u8;
            }
        }
    }
    let a2 = [115u8, 116u8, 100u8, 111u8, 117u8, 116u8];
    let r2 = register(&mut t, 2, &a2, false, true);
    proof {
        assert(a2@ =~= seq![115u8, 116u8, 100u8, 111u8, 117u8, 116u8]);
        assert(!seq![115u8, 116u8, 100u8, 111u8, 117u8, 116u8].contains(0u8)) by {
            if seq![115u8, 116u8, 100u8, 111u8, 117u8, 116u8].contains(0u8) {
                let k = choose|k: int| 0 <= k < seq![115u8, 116u8, 100u8, 111u8, 117u8, 116u8].len() && seq![115u8, 116u8, 100u8, 111u8, 117u8, 116u8][k] == 0u8;
            }
        }
    }
    let a3 = [115u8, 116u8, 100u8, 101u8, 114u8, 114u8];
    let r3 = register(&mut t, 3, &a3, false, true);
    proof {
        assert(a3@ =~= seq![115u8, 116u8, 100u8, 101u8, 114u8, 114u8]);
        assert(!seq![115u8, 116u8, 100u8, 101u8, 114u8, 114u8].contains(0u8)) by {
            if seq![115u8, 116u8, 100u8, 101u8, 114u8, 114u8].contains(0u8) {
                let k = choose|k: int| 0 <= k < seq![115u8, 116u8, 100u8, 101u8, 114u8, 114u8].len() && seq![115u8, 116u8, 100u8, 101u8, 114u8, 114u8][k] == 0u8;
            }
        }
    }
    let a4 = [122u8, 101u8, 114u8, 111u8];
    let r4 = register(&mut t, 4, &a4, true, false);
    proof {
        assert(a4@ =~= seq![122u8, 101u8, 114u8, 111u8]);
        assert(!seq![122u8, 101u8, 114u8, 111u8].contains(0u8)) by {
            if seq![122u8, 101u8, 114u8, 111u8].contains(0u8) {
                let k = choose|k: int| 0 <= k < seq![122u8, 101u8, 114u8, 111u8].len() && seq![122u8, 101u8, 114u8, 111u8][k] == 0u8;
            }
        }
    }
    let a5 = [110u8, 117u8, 108u8, 108u8];
    let r5 = register(&mut t, 5, &a5, true, true);
    proof {
        assert(a5@ =~= seq![110u8, 117u8, 108u8, 108u8]);
        assert(!seq![110u8, 117u8, 108u8, 108u8].contains(0u8)) by {
            if seq![110u8, 117u8, 108u8, 108u8].contains(0u8) {
                let k = choose|k: int| 0 <= k < seq![110u8, 117u8, 108u8, 108u8].len() && seq![110u8, 117u8, 108u8, 108u8][k] == 0u8;
            }
        }
    }
    let a6 = [103u8, 112u8, 116u8, 48u8];
    let r6 = register(&mut t, 6, &a6, false, true);
    proof {
        assert(a6@ =~= seq![103u8, 112u8, 116u8, 48u8]);
        assert(!seq![103u8, 112u8, 116u8, 48u8].contains(0u8)) by {
            if seq![103u8, 112u8, 116u8, 48u8].contains(0u8) {
                let k = choose|k: int| 0 <= k < seq![103u8, 112u8, 116u8, 48u8].len() && seq![103u8, 112u8, 116u8, 48u8][k] == 0u8;
            }
        }
    }
    t
}

/// Device `major` is registered and allows what `mode` asks for.
pub open spec fn may_open(t: DeviceTable, major: u16, mode: usize) -> bool {
    &&& major < N_DEVICES
    &&& t.slots@[major as int] matches Some(d)
    &&& (mode & OPEN_READ != 0 ==> d.readable)
    &&& (mode & OPEN_WRITE != 0 ==> d.writable)
}

/// Whether device `major` may be opened with `mode`: it is registered, and can be read if
/// `mode` asks for reading and written if it asks for writing.
pub fn open_check(t: &DeviceTable, major: u16, mode: usize) -> (r: bool)
    requires
        t.wf(),
    ensures
        r == may_open(*t, major, mode),
{
    if major as usize >= N_DEVICES {
        return false;
    }
    match &t.slots[major as usize] {
        Some(d) => (mode & OPEN_READ == 0 || d.readable) && (mode & OPEN_WRITE == 0 || d.writable),
        None => false,
    }
}

/// Reading the zero device: fills `dst` with zeros and returns its length.
pub fn zero(dst: &mut Vec<u8>) -> (n: usize)
    ensures
        n == old(dst)@.len(),
        final(dst)@ == Seq::new(old(dst)@.len(), |i: int| 0u8),
{
    let mut i: usize = 0;
    while i < dst.len()
        invariant
            dst@.len() == old(dst)@.len(),
            i <= dst@.len(),
            forall|k: int| 0 <= k < i ==> dst@[k] == 0,
        decreases dst@.len() - i,
    {
        dst.set(i, 0);
        i = i + 1;
    }
    proof {
        assert(dst@ =~= Seq::new(old(dst)@.len(), |i: int| 0u8));
    }
    dst.len()
}

/// Reading the null device: always at its end.
pub fn null_read(dst: &mut Vec<u8>) -> (n: usize)
    ensures
        n == 0,
        final(dst)@ == old(dst)@,
{
    0
}

/// Writing the null device: everything is accepted and dropped.
pub fn null_write(src: &[u8]) -> (n: usize)
    ensures
        n == src@.len(),
{
    src.len()
}

fn append(con: &mut Writer, src: &[u8])
    ensures
        final(con).out@ == old(con).out@ + src@,
{
    let mut i: usize = 0;
    while i < src.len()
        invariant
            i <= src@.len(),
            con.out@ == old(con).out@ + src@.subrange(0, i as int),
        decreases src@.len() - i,
    {
        con.out.push(src[i]);
        proof {
            assert(con.out@ =~= old(con).out@ + src@.subrange(0, i + 1));
        }
        i = i + 1;
    }
    proof {
        assert(src@.subrange(0, src@.len() as int) =~= src@);
    }
}

/// Writing standard output: the bytes go to the console.
pub fn stdout(con: &mut Writer, src: &[u8]) -> (n: usize)
    ensures
        n == src@.len(),
        final(con).out@ == old(con).out@ + src@,
{
    append(con, src);
    src.len()
}


/// The prefix written before each write to standard error.
pub open spec fn error_prefix() -> Seq<u8> {
    seq![69u8, 82u8, 82u8, 79u8, 82u8, 58u8, 32u8]
}

/// Writing standard error: the bytes go to the console after the error prefix.
pub fn stderr(con: &mut Writer, src: &[u8]) -> (n: usize)
    ensures
        n == src@.len(),
        final(con).out@ == old(con).out@ + error_prefix() + src@,
{
    let p = [69u8, 82u8, 82u8, 79u8, 82u8, 58u8, 32u8];
    append(con, &p);
    proof {
        assert(p@ =~= error_prefix());
    }
    append(con, src);
    proof {
        assert(final(con).out@ =~= old(con).out@ + error_prefix() + src@);
    }
    src.len()
}

/// Reading standard input: one pass of a line read from the console buffer (see
/// `Input::read`); true when the read is over, false when the reader must sleep first.
pub fn stdin(input: &mut Input, dst: &mut Vec<u8>, max: usize) -> (done: bool)
    requires
        old(input).wf(),
        old(dst)@.len() <= max,
    ensures
        final(input).wf(),
        ({
            let (taken, used, d) = take_input(old(input).ready_spec(), (max - old(dst)@.len()) as nat, old(dst)@.len() > 0);
            &&& done == d
            &&& final(dst)@ == old(dst)@ + taken
            &&& final(input).ready_spec() == old(input).ready_spec().subrange(used as int, old(input).ready_spec().len() as int)
        }),
{
    input.read(dst, max)
}

/// What gpt0 knows of the system when asked.
pub struct GptContext {
    pub pid: usize,
    pub name: Vec<u8>,
    pub kernel_free: usize,
    pub user_free: usize,
}

/// The questions gpt0 understands.
#[derive(PartialEq, Eq, Structural, Clone, Copy, Debug)]
pub enum GptQuestion {
    Hello,
    WhoAmI,
    FreeMemory,
    GoodJob,
    Unknown,
}

/// `s` without its trailing newlines and carriage returns.
pub open spec fn trim_line_end(s: Seq<u8>) -> Seq<u8>
    decreases s.len(),
{
    if s.len() > 0 && (s.last() == 10u8 || s.last() == 13u8) {
        trim_line_end(s.drop_last())
    } else {
        s
    }
}

/// The question asked by `src`.
pub open spec fn question_of(src: Seq<u8>) -> GptQuestion {
    let q = trim_line_end(src);
    if q == seq![72u8, 101u8, 108u8, 108u8, 111u8] {
        GptQuestion::Hello
    } else if q == seq![71u8, 117u8, 101u8, 115u8, 115u8, 32u8, 119u8, 104u8, 111u8, 32u8, 73u8, 32u8, 97u8, 109u8] {
        GptQuestion::WhoAmI
    } else if q == seq![72u8, 111u8, 119u8, 32u8, 109u8, 97u8, 110u8, 121u8, 32u8, 102u8, 114u8, 101u8, 101u8, 32u8, 109u8, 101u8, 109u8, 111u8, 114u8, 121u8, 32u8, 108u8, 101u8, 102u8, 116u8] {
        GptQuestion::FreeMemory
    } else if q == seq![71u8, 111u8, 111u8, 100u8, 32u8, 106u8, 111u8, 98u8] {
        GptQuestion::GoodJob
    } else {
        GptQuestion::Unknown
    }
}

/// Where a process name ends: at its first NUL, or at its end when it has none.
pub open spec fn name_end(name: Seq<u8>) -> nat
    decreases name.len(),
{
    if name.len() == 0 || name[0] == 0 {
        0
    } else {
        1 + name_end(name.drop_first())
    }
}

/// A process name as stored, cut at its first NUL.
pub open spec fn name_text(name: Seq<u8>) -> Seq<u8> {
    name.take(name_end(name) as int)
}

/// Shown in place of a name that is not UTF-8: `<invalid UTF-8>`.
pub open spec fn invalid_name_text() -> Seq<u8> {
    seq![60u8, 105u8, 110u8, 118u8, 97u8, 108u8, 105u8, 100u8, 32u8, 85u8, 84u8, 70u8, 45u8, 56u8, 62u8]
}

/// The name gpt0 shows: the stored name cut at its first NUL when that is UTF-8
/// (`name_ok`), else the placeholder.
pub open spec fn shown_name(name: Seq<u8>, name_ok: bool) -> Seq<u8> {
    if name_ok { name_text(name) } else { invalid_name_text() }
}

/// The line gpt0 answers question `q` with; `name_ok` says whether the asking process's
/// name, cut at its first NUL, is UTF-8.
pub open spec fn answer_of(q: GptQuestion, ctx: GptContext, name_ok: bool) -> Seq<u8> {
    match q {
        GptQuestion::Hello => seq![72u8, 105u8, 44u8, 32u8, 73u8, 32u8, 97u8, 109u8, 32u8, 103u8, 112u8, 116u8, 48u8, 33u8, 10u8],
        GptQuestion::WhoAmI => seq![89u8, 111u8, 117u8, 114u8, 32u8, 112u8, 114u8, 111u8, 99u8, 105u8, 100u8, 32u8, 105u8, 115u8, 32u8] + digits(ctx.pid as nat, 10) + seq![32u8, 97u8, 110u8, 100u8, 32u8, 110u8, 97u8, 109u8, 101u8, 32u8, 105u8, 115u8, 32u8] + shown_name(ctx.name@, name_ok) + seq![46u8, 10u8],
        GptQuestion::FreeMemory => seq![87u8, 101u8, 32u8, 104u8, 97u8, 118u8, 101u8, 32u8] + digits(ctx.kernel_free as nat, 10) + seq![32u8, 102u8, 114u8, 101u8, 101u8, 32u8, 112u8, 97u8, 103u8, 101u8, 115u8, 32u8, 105u8, 110u8, 32u8, 107u8, 101u8, 114u8, 110u8, 101u8, 108u8, 32u8, 115u8, 112u8, 97u8, 99u8, 101u8, 44u8, 32u8]
            + digits(ctx.user_free as nat, 10) + seq![32u8, 102u8, 114u8, 101u8, 101u8, 32u8, 112u8, 97u8, 103u8, 101u8, 115u8, 32u8, 105u8, 110u8, 32u8, 117u8, 115u8, 101u8, 114u8, 32u8, 115u8, 112u8, 97u8, 99u8, 101u8, 33u8, 10u8],
        GptQuestion::GoodJob => seq![84u8, 104u8, 97u8, 110u8, 107u8, 115u8, 32u8, 102u8, 111u8, 114u8, 32u8, 121u8, 111u8, 117u8, 114u8, 32u8, 107u8, 105u8, 110u8, 100u8, 32u8, 119u8, 111u8, 114u8, 100u8, 115u8, 33u8, 10u8],
        GptQuestion::Unknown => seq![83u8, 111u8, 114u8, 114u8, 121u8, 44u8, 32u8, 73u8, 32u8, 99u8, 97u8, 110u8, 32u8, 110u8, 111u8, 116u8, 32u8, 117u8, 110u8, 100u8, 101u8, 114u8, 115u8, 116u8, 97u8, 110u8, 100u8, 32u8, 105u8, 116u8, 46u8, 10u8],
    }
}

/// Which question `src` asks, ignoring a trailing line end.
pub fn gpt_question(src: &[u8]) -> (q: GptQuestion)
    ensures
        q == question_of(src@),
{
    let mut n = src.len();
    proof {
        assert(src@.subrange(0, n as int) =~= src@);
    }
    while n > 0 && (src[n - 1] == 10 || src[n - 1] == 13)
        invariant
            n <= src@.len(),
            trim_line_end(src@) == trim_line_end(src@.subrange(0, n as int)),
        decreases n,
    {
        proof {
            assert(src@.subrange(0, n as int).drop_last() =~= src@.subrange(0, n - 1));
        }
        n = n - 1;
    }
    let q = &src[0..n];
    proof {
        assert(trim_line_end(src@.subrange(0, n as int)) == src@.subrange(0, n as int));
        assert(q@ == trim_line_end(src@));
    }
    let k_hello = [72u8, 101u8, 108u8, 108u8, 111u8];
    proof {
        assert(k_hello@ =~= seq![72u8, 101u8, 108u8, 108u8, 111u8]);
    }
    let k_who = [71u8, 117u8, 101u8, 115u8, 115u8, 32u8, 119u8, 104u8, 111u8, 32u8, 73u8, 32u8, 97u8, 109u8];
    proof {
        assert(k_who@ =~= seq![71u8, 117u8, 101u8, 115u8, 115u8, 32u8, 119u8, 104u8, 111u8, 32u8, 73u8, 32u8, 97u8, 109u8]);
    }
    let k_mem = [72u8, 111u8, 119u8, 32u8, 109u8, 97u8, 110u8, 121u8, 32u8, 102u8, 114u8, 101u8, 101u8, 32u8, 109u8, 101u8, 109u8, 111u8, 114u8, 121u8, 32u8, 108u8, 101u8, 102u8, 116u8];
    proof {
        assert(k_mem@ =~= seq![72u8, 111u8, 119u8, 32u8, 109u8, 97u8, 110u8, 121u8, 32u8, 102u8, 114u8, 101u8, 101u8, 32u8, 109u8, 101u8, 109u8, 111u8, 114u8, 121u8, 32u8, 108u8, 101u8, 102u8, 116u8]);
    }
    let k_good = [71u8, 111u8, 111u8, 100u8, 32u8, 106u8, 111u8, 98u8];
    proof {
        assert(k_good@ =~= seq![71u8, 111u8, 111u8, 100u8, 32u8, 106u8, 111u8, 98u8]);
    }
    if bytes_eq(q, &k_hello) {
        GptQuestion::Hello
    } else if bytes_eq(q, &k_who) {
        GptQuestion::WhoAmI
    } else if bytes_eq(q, &k_mem) {
        GptQuestion::FreeMemory
    } else if bytes_eq(q, &k_good) {
        GptQuestion::GoodJob
    } else {
        GptQuestion::Unknown
    }
}


/// `core::str::from_utf8`: whether `bytes` is well-formed UTF-8. The standard library
/// accepts exactly the byte sequences that encode Unicode scalar values as the Unicode
/// standard's UTF-8 does (no overlong forms, no surrogates, nothing above U+10FFFF),
/// which is what `vstd::utf8::valid_utf8` states.
#[verifier::external_body]
fn is_utf8(bytes: &[u8]) -> (r: bool)
    ensures
        r == vstd::utf8::valid_utf8(bytes@),
{
    core::str::from_utf8(bytes).is_ok()
}

proof fn lemma_name_end(name: Seq<u8>, i: int)
    requires
        0 <= i <= name.len(),
        i == name.len() || name[i] == 0,
        forall|x: int| 0 <= x < i ==> name[x] != 0,
    ensures
        name_end(name) == i,
    decreases i,
{
    if i > 0 {
        lemma_name_end(name.drop_first(), i - 1);
    }
}

/// The stored process name `name` cut at its first NUL.
pub fn name_until_nul(name: &[u8]) -> (r: &[u8])
    ensures
        r@ == name_text(name@),
{
    let mut i: usize = 0;
    while i < name.len() && name[i] != 0
        invariant
            i <= name@.len(),
            forall|x: int| 0 <= x < i ==> name@[x] != 0,
        decreases name@.len() - i,
    {
        i = i + 1;
    }
    proof {
        lemma_name_end(name@, i as int);
    }
    let r = &name[0..i];
    proof {
        assert(r@ =~= name_text(name@));
    }
    r
}

/// Writing gpt0: answers the question on the console. Returns the length of `src`.
pub fn gpt(con: &mut Writer, src: &[u8], ctx: &GptContext) -> (n: usize)
    ensures
        n == src@.len(),
        final(con).out@ == old(con).out@ + answer_of(question_of(src@), *ctx, vstd::utf8::valid_utf8(name_text(ctx.name@))),
{
    let q = gpt_question(src);
    let name_ok = is_utf8(name_until_nul(ctx.name.as_slice()));
    gpt_answer(con, q, ctx, name_ok);
    src.len()
}

/// Puts gpt0's answer to `q` on the console, showing the asking process's name (cut at
/// its first NUL) when `name_ok` says it is UTF-8 and the placeholder otherwise.
pub fn gpt_answer(con: &mut Writer, q: GptQuestion, ctx: &GptContext, name_ok: bool)
    ensures
        final(con).out@ == old(con).out@ + answer_of(q, *ctx, name_ok),
{
    match q {
        GptQuestion::Hello => {
            let a = [72u8, 105u8, 44u8, 32u8, 73u8, 32u8, 97u8, 109u8, 32u8, 103u8, 112u8, 116u8, 48u8, 33u8, 10u8];
            append(con, &a);
            proof { assert(a@ =~= seq![72u8, 105u8, 44u8, 32u8, 73u8, 32u8, 97u8, 109u8, 32u8, 103u8, 112u8, 116u8, 48u8, 33u8, 10u8]); }
        },
        GptQuestion::WhoAmI => {
            let a = [89u8, 111u8, 117u8, 114u8, 32u8, 112u8, 114u8, 111u8, 99u8, 105u8, 100u8, 32u8, 105u8, 115u8, 32u8];
            let b = [32u8, 97u8, 110u8, 100u8, 32u8, 110u8, 97u8, 109u8, 101u8, 32u8, 105u8, 115u8, 32u8];
            let c = [46u8, 10u8];
            let d = print_dec(ctx.pid);
            append(con, &a);
            append(con, d.as_slice());
            append(con, &b);
            if name_ok {
                append(con, name_until_nul(ctx.name.as_slice()));
            } else {
                let bad = [60u8, 105u8, 110u8, 118u8, 97u8, 108u8, 105u8, 100u8, 32u8, 85u8, 84u8, 70u8, 45u8, 56u8, 62u8];
                proof { assert(bad@ =~= invalid_name_text()); }
                append(con, &bad);
            }
            append(con, &c);
            proof {
                assert(a@ =~= seq![89u8, 111u8, 117u8, 114u8, 32u8, 112u8, 114u8, 111u8, 99u8, 105u8, 100u8, 32u8, 105u8, 115u8, 32u8]);
                assert(b@ =~= seq![32u8, 97u8, 110u8, 100u8, 32u8, 110u8, 97u8, 109u8, 101u8, 32u8, 105u8, 115u8, 32u8]);
                assert(c@ =~= seq![46u8, 10u8]);
                assert(final(con).out@ =~= old(con).out@ + answer_of(q, *ctx, name_ok));
            }
        },
        GptQuestion::FreeMemory => {
            let a = [87u8, 101u8, 32u8, 104u8, 97u8, 118u8, 101u8, 32u8];
            let b = [32u8, 102u8, 114u8, 101u8, 101u8, 32u8, 112u8, 97u8, 103u8, 101u8, 115u8, 32u8, 105u8, 110u8, 32u8, 107u8, 101u8, 114u8, 110u8, 101u8, 108u8, 32u8, 115u8, 112u8, 97u8, 99u8, 101u8, 44u8, 32u8];
            let c = [32u8, 102u8, 114u8, 101u8, 101u8, 32u8, 112u8, 97u8, 103u8, 101u8, 115u8, 32u8, 105u8, 110u8, 32u8, 117u8, 115u8, 101u8, 114u8, 32u8, 115u8, 112u8, 97u8, 99u8, 101u8, 33u8, 10u8];
            let k = print_dec(ctx.kernel_free);
            let u = print_dec(ctx.user_free);
            append(con, &a);
            append(con, k.as_slice());
            append(con, &b);
            append(con, u.as_slice());
            append(con, &c);
            proof {
                assert(a@ =~= seq![87u8, 101u8, 32u8, 104u8, 97u8, 118u8, 101u8, 32u8]);
                assert(b@ =~= seq![32u8, 102u8, 114u8, 101u8, 101u8, 32u8, 112u8, 97u8, 103u8, 101u8, 115u8, 32u8, 105u8, 110u8, 32u8, 107u8, 101u8, 114u8, 110u8, 101u8, 108u8, 32u8, 115u8, 112u8, 97u8, 99u8, 101u8, 44u8, 32u8]);
                assert(c@ =~= seq![32u8, 102u8, 114u8, 101u8, 101u8, 32u8, 112u8, 97u8, 103u8, 101u8, 115u8, 32u8, 105u8, 110u8, 32u8, 117u8, 115u8, 101u8, 114u8, 32u8, 115u8, 112u8, 97u8, 99u8, 101u8, 33u8, 10u8]);
                assert(final(con).out@ =~= old(con).out@ + answer_of(q, *ctx, name_ok));
            }
        },
        GptQuestion::GoodJob => {
            let a = [84u8, 104u8, 97u8, 110u8, 107u8, 115u8, 32u8, 102u8, 111u8, 114u8, 32u8, 121u8, 111u8, 117u8, 114u8, 32u8, 107u8, 105u8, 110u8, 100u8, 32u8, 119u8, 111u8, 114u8, 100u8, 115u8, 33u8, 10u8];
            append(con, &a);
            proof { assert(a@ =~= seq![84u8, 104u8, 97u8, 110u8, 107u8, 115u8, 32u8, 102u8, 111u8, 114u8, 32u8, 121u8, 111u8, 117u8, 114u8, 32u8, 107u8, 105u8, 110u8, 100u8, 32u8, 119u8, 111u8, 114u8, 100u8, 115u8, 33u8, 10u8]); }
        },
        GptQuestion::Unknown => {
            let a = [83u8, 111u8, 114u8, 114u8, 121u8, 44u8, 32u8, 73u8, 32u8, 99u8, 97u8, 110u8, 32u8, 110u8, 111u8, 116u8, 32u8, 117u8, 110u8, 100u8, 101u8, 114u8, 115u8, 116u8, 97u8, 110u8, 100u8, 32u8, 105u8, 116u8, 46u8, 10u8];
            append(con, &a);
            proof { assert(a@ =~= seq![83u8, 111u8, 114u8, 114u8, 121u8, 44u8, 32u8, 73u8, 32u8, 99u8, 97u8, 110u8, 32u8, 110u8, 111u8, 116u8, 32u8, 117u8, 110u8, 100u8, 101u8, 114u8, 115u8, 116u8, 97u8, 110u8, 100u8, 32u8, 105u8, 116u8, 46u8, 10u8]); }
        },
    }
}

/// Reads device `major` into `dst` (which holds what earlier passes of the same read
/// took), at most `max` bytes in all: standard input takes a line from the console
/// buffer, zero fills with zeros, null is at its end. `Ok(true)` when the read is over,
/// `Ok(false)` when the reader must sleep for input first; `Err` for any other device.
pub fn read(major: u16, input: &mut Input, dst: &mut Vec<u8>, max: usize) -> (r: Result<bool, ()>)
    requires
        old(input).wf(),
        old(dst)@.len() <= max,
    ensures
        final(input).wf(),
        r is Err <==> !(major == STDIN || major == ZERO || major == NULL),
        major == STDIN ==> ({
            let (taken, used, d) = take_input(old(input).ready_spec(), (max - old(dst)@.len()) as nat, old(dst)@.len() > 0);
            &&& r == Ok::<bool, ()>(d)
            &&& final(dst)@ == old(dst)@ + taken
            &&& final(input).ready_spec() == old(input).ready_spec().subrange(used as int, old(input).ready_spec().len() as int)
        }),
        major == ZERO ==> r == Ok::<bool, ()>(true) && *final(input) == *old(input)
            && final(dst)@ == old(dst)@ + Seq::new((max - old(dst)@.len()) as nat, |i: int| 0u8),
        major != STDIN ==> *final(input) == *old(input),
        major != STDIN && major != ZERO ==> final(dst)@ == old(dst)@,
{
    if major == STDIN {
        Ok(stdin(input, dst, max))
    } else if major == ZERO {
        let ghost d0 = dst@;
        while dst.len() < max
            invariant
                d0.len() <= dst@.len() <= max,
                dst@ == d0 + Seq::new((dst@.len() - d0.len()) as nat, |i: int| 0u8),
            decreases max - dst@.len(),
        {
            dst.push(0);
            proof {
                assert(dst@ =~= d0 + Seq::new((dst@.len() - d0.len()) as nat, |i: int| 0u8));
            }
        }
        Ok(true)
    } else if major == NULL {
        null_read(dst);
        Ok(true)
    } else {
        Err(())
    }
}

/// Writes `src` to device `major`: standard output and standard error go to the
/// console (the latter after its prefix), null drops the bytes, gpt0 answers. Returns
/// the number of bytes taken; `Err` for any other device.
pub fn write(major: u16, con: &mut Writer, src: &[u8], ctx: &GptContext) -> (r: Result<usize, ()>)
    ensures
        r is Err <==> !(major == STDOUT || major == STDERR || major == NULL || major == GPT0),
        r matches Ok(n) ==> n == src@.len(),
        major == STDOUT ==> final(con).out@ == old(con).out@ + src@,
        major == STDERR ==> final(con).out@ == old(con).out@ + error_prefix() + src@,
        major == GPT0 ==> final(con).out@ == old(con).out@ + answer_of(question_of(src@), *ctx, vstd::utf8::valid_utf8(name_text(ctx.name@))),
        !(major == STDOUT || major == STDERR || major == GPT0) ==> final(con).out@ == old(con).out@,
{
    if major == STDOUT {
        Ok(stdout(con, src))
    } else if major == STDERR {
        Ok(stderr(con, src))
    } else if major == NULL {
        Ok(null_write(src))
    } else if major == GPT0 {
        Ok(gpt(con, src, ctx))
    } else {
        Err(())
    }
}

}
