//! Execution stacks. Every process owns one fixed-size stack; its saved
//! register context lives inside that stack. Stack memory is modelled as
//! one owned arena of machine words addressed from a base address, so
//! that the raw-pointer aliasing of the hardware (a context is a region
//! of its stack) becomes explicit word indices into the arena.

use vstd::prelude::*;
use vstd::arithmetic::div_mod::lemma_fundamental_div_mod;
use crate::common;
use crate::pcbs::Context;
use crate::pcbs::CXT_WORDS;
use crate::pcbs::CXT_RBP;
use crate::pcbs::CXT_RIP;
use crate::pcbs::CXT_CS;
use crate::pcbs::CXT_RFLAGS;
use crate::pcbs::CXT_RSP;
use crate::pcbs::CXT_SS;
use crate::x86arch;

verus! {

/// Number of machine words in one stack.
pub const STACK_SIZE: usize = 1024;

/// Number of bytes in one stack.
pub const STACK_BYTES: u64 = 8192;

/// Snapshot of one stack's contents.
pub struct StkBuffer {
    pub data: Vec<u64>,
}

/// The arena all execution stacks are carved from. `mem` holds the words
/// of every allocated stack, `STACK_SIZE` consecutive words per stack;
/// the stack allocated `i`-th has base address `base + i * STACK_BYTES`.
/// Stacks are never reclaimed, matching the no-free allocator of the
/// machine this models.
pub struct StackPool {
    mem: Vec<u64>,
    base: u64,
    exit_point: u64,
}

impl StackPool {
    /// The words of every allocated stack.
    pub closed spec fn words(self) -> Seq<u64> {
        self.mem@
    }

    /// Address of the first arena word.
    pub closed spec fn spec_base(self) -> u64 {
        self.base
    }

    /// Address a process function returns to when it falls off its end.
    pub closed spec fn spec_exit_point(self) -> u64 {
        self.exit_point
    }

    pub open spec fn wf(self) -> bool {
        &&& self.spec_base() as int % 8 == 0
        &&& self.words().len() % 1024 == 0
        &&& self.spec_base() as int + 8 * self.words().len() <= u64::MAX as int
    }

    /// Whether `stk` is the base address of an allocated stack.
    pub open spec fn valid_stack(self, stk: u64) -> bool {
        &&& self.spec_base() <= stk
        &&& (stk as int - self.spec_base() as int) % (STACK_BYTES as int) == 0
        &&& stk as int + STACK_BYTES as int
            <= self.spec_base() as int + 8 * self.words().len()
    }

    /// Index into `words()` of the word at address `addr`.
    pub open spec fn word_at(self, addr: u64) -> int {
        (addr as int - self.spec_base() as int) / 8
    }

    /// Whether `addr` is the address of an arena word.
    pub open spec fn valid_word(self, addr: u64) -> bool {
        &&& self.spec_base() <= addr
        &&& (addr as int - self.spec_base() as int) % 8 == 0
        &&& self.word_at(addr) < self.words().len()
    }

    /// Whether `cxt` is a well-placed context location within the
    /// allocated stack based at `stk`: word-aligned, and the whole
    /// `CXT_WORDS`-word region lies inside the stack.
    pub open spec fn cxt_ok(self, cxt: u64, stk: u64) -> bool {
        &&& self.valid_stack(stk)
        &&& stk <= cxt
        &&& (cxt as int - stk as int) % 8 == 0
        &&& (cxt as int - stk as int) / 8 + CXT_WORDS as int <= STACK_SIZE as int
    }

    /// Room for one more stack, in the arena and in the address space.
    pub open spec fn can_alloc(self) -> bool {
        &&& self.words().len() + 1024 <= usize::MAX as int
        &&& self.spec_base() as int + 8 * (self.words().len() + 1024) <= u64::MAX as int
    }

    /// An aligned address within a stack is an arena word, and its word
    /// index is the stack's first word index plus the word offset.
    pub proof fn lemma_stack_word(self, stk: u64, off: int)
        requires
            self.wf(),
            self.valid_stack(stk),
            0 <= off < 1024,
        ensures
            self.valid_word((stk + 8 * off) as u64),
            self.word_at((stk + 8 * off) as u64) == self.word_at(stk) + off,
            0 <= self.word_at(stk),
            self.word_at(stk) % 1024 == 0,
            self.word_at(stk) + 1024 <= self.words().len(),
            stk == self.spec_base() as int + 8 * self.word_at(stk),
            stk as int + 8 * off < self.spec_base() as int + 8 * self.words().len(),
            stk as int + 8 * off <= u64::MAX as int,
    {
        let d = stk as int - self.spec_base() as int;
        lemma_fundamental_div_mod(d, 8192);
        let k = d / 8192;
        assert(d == 8192 * k);
        assert(d / 8 == 1024 * k) by (nonlinear_arith)
            requires d == 8192 * k;
        assert((1024 * k) % 1024 == 0) by (nonlinear_arith);
        assert((d + 8 * off) / 8 == 1024 * k + off) by (nonlinear_arith)
            requires d == 8192 * k;
        assert((d + 8 * off) % 8 == 0) by (nonlinear_arith)
            requires d == 8192 * k;
        assert(8 * (d / 8) == d) by (nonlinear_arith)
            requires d == 8192 * k;
    }

    /// Distinct stacks occupy disjoint word ranges.
    pub proof fn lemma_stacks_disjoint(self, s1: u64, s2: u64)
        requires
            self.wf(),
            self.valid_stack(s1),
            self.valid_stack(s2),
            s1 != s2,
        ensures
            self.word_at(s1) + 1024 <= self.word_at(s2)
                || self.word_at(s2) + 1024 <= self.word_at(s1),
    {
        self.lemma_stack_word(s1, 0);
        self.lemma_stack_word(s2, 0);
        let w1 = self.word_at(s1);
        let w2 = self.word_at(s2);
        assert(w1 != w2);
        assert(w1 % 1024 == 0 && w2 % 1024 == 0);
        if w1 < w2 {
            lemma_fundamental_div_mod(w1, 1024);
            lemma_fundamental_div_mod(w2, 1024);
            assert(w1 + 1024 <= w2) by (nonlinear_arith)
                requires
                    w1 % 1024 == 0,
                    w2 % 1024 == 0,
                    w1 < w2,
                    w1 >= 0,
                    w2 >= 0;
        } else {
            lemma_fundamental_div_mod(w1, 1024);
            lemma_fundamental_div_mod(w2, 1024);
            assert(w2 + 1024 <= w1) by (nonlinear_arith)
                requires
                    w1 % 1024 == 0,
                    w2 % 1024 == 0,
                    w2 < w1,
                    w1 >= 0,
                    w2 >= 0;
        }
    }

    /// A well-placed context consists of arena words.
    pub proof fn lemma_cxt_word(self, cxt: u64, stk: u64, off: int)
        requires
            self.wf(),
            self.cxt_ok(cxt, stk),
            0 <= off < CXT_WORDS as int,
        ensures
            self.valid_word((cxt + 8 * off) as u64),
            self.word_at((cxt + 8 * off) as u64) == self.word_at(cxt) + off,
            self.word_at(cxt) == self.word_at(stk) + (cxt as int - stk as int) / 8,
            self.word_at(stk) <= self.word_at(cxt),
            self.word_at(cxt) + CXT_WORDS as int <= self.word_at(stk) + 1024,
            cxt as int + 8 * off <= u64::MAX as int,
            cxt as int == self.spec_base() as int + 8 * self.word_at(cxt),
    {
        let e = cxt as int - stk as int;
        lemma_fundamental_div_mod(e, 8);
        let j = e / 8;
        assert(e == 8 * j);
        self.lemma_stack_word(stk, j + off);
        self.lemma_stack_word(stk, j);
        assert(stk + 8 * (j + off) == cxt + 8 * off);
        if off + 1 < CXT_WORDS as int {
            self.lemma_stack_word(stk, j + CXT_WORDS as int - 1);
        }
    }

    /// A fresh arena with no stacks, based at `base`, whose synthetic
    /// return chains will end at `exit_point`.
    pub fn new(base: u64, exit_point: u64) -> (r: StackPool)
        requires
            base % 8 == 0,
        ensures
            r.wf(),
            r.words().len() == 0,
            r.spec_base() == base,
            r.spec_exit_point() == exit_point,
    {
        StackPool { mem: Vec::new(), base, exit_point }
    }

    /// Allocates a zeroed stack and returns its base address.
    pub fn stk_alloc(&mut self) -> (stk: u64)
        requires
            old(self).wf(),
            old(self).can_alloc(),
        ensures
            final(self).wf(),
            final(self).spec_base() == old(self).spec_base(),
            final(self).spec_exit_point() == old(self).spec_exit_point(),
            final(self).words().len() == old(self).words().len() + 1024,
            forall|i: int| 0 <= i < old(self).words().len()
                ==> final(self).words()[i] == old(self).words()[i],
            forall|i: int| old(self).words().len() <= i < final(self).words().len()
                ==> final(self).words()[i] == 0,
            final(self).valid_stack(stk),
            stk as int == old(self).spec_base() as int + 8 * old(self).words().len(),
            final(self).word_at(stk) == old(self).words().len(),
            forall|s: u64| old(self).valid_stack(s) ==> final(self).valid_stack(s),
    {
        let old_len = self.mem.len();
        let stk = self.base + 8 * (old_len as u64);
        let mut i: usize = 0;
        while i < 1024
            invariant
                i <= 1024,
                self.mem@.len() == old_len + i,
                self.base == old(self).spec_base(),
                self.exit_point == old(self).spec_exit_point(),
                old_len == old(self).words().len(),
                old_len + 1024 <= usize::MAX as int,
                forall|j: int| 0 <= j < old_len ==> self.mem@[j] == old(self).words()[j],
                forall|j: int| old_len <= j < old_len + i ==> self.mem@[j] == 0,
            decreases 1024 - i,
        {
            self.mem.push(0);
            i = i + 1;
        }
        stk
    }

    /// Number of words the arena holds.
    pub fn arena_len(&self) -> (n: usize)
        ensures
            n == self.words().len(),
    {
        self.mem.len()
    }

    /// Reads the arena word at `addr`.
    pub fn read_word(&self, addr: u64) -> (v: u64)
        requires
            self.wf(),
            self.valid_word(addr),
        ensures
            v == self.words()[self.word_at(addr)],
    {
        let idx_w: u64 = (addr - self.base) / 8;
        let n = self.mem.len();
        assert(idx_w < n as u64);
        let idx = idx_w as usize;
        self.mem[idx]
    }

    /// Writes the arena word at `addr`.
    pub fn write_word(&mut self, addr: u64, v: u64)
        requires
            old(self).wf(),
            old(self).valid_word(addr),
        ensures
            final(self).wf(),
            final(self).spec_base() == old(self).spec_base(),
            final(self).spec_exit_point() == old(self).spec_exit_point(),
            final(self).words() == old(self).words().update(old(self).word_at(addr), v),
    {
        let idx_w: u64 = (addr - self.base) / 8;
        let n = self.mem.len();
        assert(idx_w < n as u64);
        let idx = idx_w as usize;
        self.mem.set(idx, v);
    }

    /// Copies the contents of one stack into another, word for word.
    pub fn stk_copy(&mut self, src: u64, dst: u64)
        requires
            old(self).wf(),
            old(self).valid_stack(src),
            old(self).valid_stack(dst),
        ensures
            final(self).wf(),
            final(self).spec_base() == old(self).spec_base(),
            final(self).spec_exit_point() == old(self).spec_exit_point(),
            final(self).words().len() == old(self).words().len(),
            forall|w: int| 0 <= w < 1024
                ==> #[trigger] final(self).words()[old(self).word_at(dst) + w]
                    == old(self).words()[old(self).word_at(src) + w],
            forall|i: int| 0 <= i < old(self).words().len()
                && !(old(self).word_at(dst) <= i < old(self).word_at(dst) + 1024)
                ==> final(self).words()[i] == old(self).words()[i],
    {
        proof {
            old(self).lemma_stack_word(src, 0);
            old(self).lemma_stack_word(dst, 0);
            if src != dst {
                old(self).lemma_stacks_disjoint(src, dst);
            }
        }
        let ghost sw = old(self).word_at(src);
        let ghost dw = old(self).word_at(dst);
        let mut i: usize = 0;
        while i < STACK_SIZE
            invariant
                i <= 1024,
                self.wf(),
                self.spec_base() == old(self).spec_base(),
                self.spec_exit_point() == old(self).spec_exit_point(),
                self.words().len() == old(self).words().len(),
                self.valid_stack(src),
                self.valid_stack(dst),
                sw == self.word_at(src),
                dw == self.word_at(dst),
                0 <= sw,
                sw + 1024 <= self.words().len(),
                0 <= dw,
                dw + 1024 <= self.words().len(),
                sw == dw || sw + 1024 <= dw || dw + 1024 <= sw,
                forall|w: int| 0 <= w < i
                    ==> #[trigger] self.words()[dw + w] == old(self).words()[sw + w],
                forall|j: int| 0 <= j < old(self).words().len()
                    && !(dw <= j < dw + i)
                    ==> self.words()[j] == old(self).words()[j],
            decreases STACK_SIZE - i,
        {
            proof {
                self.lemma_stack_word(src, i as int);
                self.lemma_stack_word(dst, i as int);
            }
            let v = self.read_word(src + 8 * (i as u64));
            self.write_word(dst + 8 * (i as u64), v);
            i = i + 1;
        }
    }

    /// Sets up the stack based at `s` for a new process: writes the
    /// synthetic return chain at the top (a zero terminator above the
    /// process-exit return address), then initializes a register context
    /// immediately below it for entry point `entry`, and returns the
    /// address of that context.
    pub fn stk_setup(&mut self, s: u64, entry: u64) -> (ret: u64)
        requires
            old(self).wf(),
            old(self).valid_stack(s),
        ensures
            final(self).wf(),
            final(self).spec_base() == old(self).spec_base(),
            final(self).spec_exit_point() == old(self).spec_exit_point(),
            final(self).words().len() == old(self).words().len(),
            final(self).valid_stack(s),
            ret as int == s as int + 8 * (STACK_SIZE as int - 2 - CXT_WORDS as int),
            final(self).cxt_ok(ret, s),
            final(self).words()[old(self).word_at(s) + 1023] == 0,
            final(self).words()[old(self).word_at(s) + 1022] == old(self).spec_exit_point(),
            final(self).words()[final(self).word_at(ret) + CXT_RFLAGS as int]
                == common::DEFAULT_EFLAGS,
            final(self).words()[final(self).word_at(ret) + CXT_RIP as int] == entry,
            final(self).words()[final(self).word_at(ret) + CXT_RBP as int] == 0,
            final(self).words()[final(self).word_at(ret) + CXT_CS as int] == x86arch::GDT64_CODE,
            final(self).words()[final(self).word_at(ret) + CXT_SS as int] == x86arch::GDT64_DATA,
            final(self).words()[final(self).word_at(ret) + CXT_RSP as int]
                == s as int + 8 * 1022,
            final(self).word_at(ret) == old(self).word_at(s) + 1000,
            forall|i: int| 0 <= i < old(self).words().len()
                && i != old(self).word_at(s) + 1023
                && i != old(self).word_at(s) + 1022
                && i != old(self).word_at(s) + 1000 + CXT_RFLAGS as int
                && i != old(self).word_at(s) + 1000 + CXT_RIP as int
                && i != old(self).word_at(s) + 1000 + CXT_RBP as int
                && i != old(self).word_at(s) + 1000 + CXT_CS as int
                && i != old(self).word_at(s) + 1000 + CXT_SS as int
                && i != old(self).word_at(s) + 1000 + CXT_RSP as int
                ==> final(self).words()[i] == old(self).words()[i],
    {
        // Get address of the process-exit stub.
        let ext = self.exit_point;

        // Put 0 at the last word, and the exit stub as return address
        // below it.
        proof { self.lemma_stack_word(s, 1023); }
        self.write_word(s + 8 * 1023, 0);
        proof { self.lemma_stack_word(s, 1022); }
        self.write_word(s + 8 * 1022, ext);

        // Set up the context block immediately below the return chain.
        let ptr = s + 8 * 1022;
        let ret = ptr - 8 * CXT_WORDS;

        // Set up the registers for the process.
        proof { self.lemma_stack_word(s, 1000 + CXT_RFLAGS as int); }
        self.write_word(ret + 8 * CXT_RFLAGS, common::DEFAULT_EFLAGS);
        proof { self.lemma_stack_word(s, 1000 + CXT_RIP as int); }
        self.write_word(ret + 8 * CXT_RIP, entry);
        proof { self.lemma_stack_word(s, 1000 + CXT_RBP as int); }
        self.write_word(ret + 8 * CXT_RBP, 0);
        proof { self.lemma_stack_word(s, 1000 + CXT_CS as int); }
        self.write_word(ret + 8 * CXT_CS, x86arch::GDT64_CODE);
        proof { self.lemma_stack_word(s, 1000 + CXT_SS as int); }
        self.write_word(ret + 8 * CXT_SS, x86arch::GDT64_DATA);
        proof { self.lemma_stack_word(s, 1000 + CXT_RSP as int); }
        self.write_word(ret + 8 * CXT_RSP, ptr);
        proof { self.lemma_stack_word(s, 1000); }
        ret
    }

    /// Decodes the context region at `cxt` into a register snapshot.
    pub fn read_context(&self, cxt: u64, stk: u64) -> (c: Context)
        requires
            self.wf(),
            self.cxt_ok(cxt, stk),
        ensures
            c == self.spec_context(cxt),
    {
        proof {
            self.lemma_cxt_word(cxt, stk, 0);
            self.lemma_cxt_word(cxt, stk, 1);
            self.lemma_cxt_word(cxt, stk, 2);
            self.lemma_cxt_word(cxt, stk, 3);
            self.lemma_cxt_word(cxt, stk, 4);
            self.lemma_cxt_word(cxt, stk, 5);
            self.lemma_cxt_word(cxt, stk, 6);
            self.lemma_cxt_word(cxt, stk, 7);
            self.lemma_cxt_word(cxt, stk, 8);
            self.lemma_cxt_word(cxt, stk, 9);
            self.lemma_cxt_word(cxt, stk, 10);
            self.lemma_cxt_word(cxt, stk, 11);
            self.lemma_cxt_word(cxt, stk, 12);
            self.lemma_cxt_word(cxt, stk, 13);
            self.lemma_cxt_word(cxt, stk, 14);
            self.lemma_cxt_word(cxt, stk, 15);
            self.lemma_cxt_word(cxt, stk, 16);
            self.lemma_cxt_word(cxt, stk, 17);
            self.lemma_cxt_word(cxt, stk, 18);
            self.lemma_cxt_word(cxt, stk, 19);
            self.lemma_cxt_word(cxt, stk, 20);
            self.lemma_cxt_word(cxt, stk, 21);
        }
        Context {
            r15: self.read_word(cxt),
            r14: self.read_word(cxt + 8),
            r13: self.read_word(cxt + 16),
            r12: self.read_word(cxt + 24),
            r11: self.read_word(cxt + 32),
            r10: self.read_word(cxt + 40),
            r9: self.read_word(cxt + 48),
            r8: self.read_word(cxt + 56),
            rdx: self.read_word(cxt + 64),
            rcx: self.read_word(cxt + 72),
            rbx: self.read_word(cxt + 80),
            rax: self.read_word(cxt + 88),
            rdi: self.read_word(cxt + 96),
            rsi: self.read_word(cxt + 104),
            rbp: self.read_word(cxt + 112),
            vector: self.read_word(cxt + 120),
            code: self.read_word(cxt + 128),
            rip: self.read_word(cxt + 136),
            cs: self.read_word(cxt + 144),
            rflags: self.read_word(cxt + 152),
            rsp: self.read_word(cxt + 160),
            ss: self.read_word(cxt + 168),
        }
    }

    /// The register snapshot stored at context location `cxt`.
    pub open spec fn spec_context(self, cxt: u64) -> Context {
        let w = self.word_at(cxt);
        Context {
            r15: self.words()[w + 0],
            r14: self.words()[w + 1],
            r13: self.words()[w + 2],
            r12: self.words()[w + 3],
            r11: self.words()[w + 4],
            r10: self.words()[w + 5],
            r9: self.words()[w + 6],
            r8: self.words()[w + 7],
            rdx: self.words()[w + 8],
            rcx: self.words()[w + 9],
            rbx: self.words()[w + 10],
            rax: self.words()[w + 11],
            rdi: self.words()[w + 12],
            rsi: self.words()[w + 13],
            rbp: self.words()[w + 14],
            vector: self.words()[w + 15],
            code: self.words()[w + 16],
            rip: self.words()[w + 17],
            cs: self.words()[w + 18],
            rflags: self.words()[w + 19],
            rsp: self.words()[w + 20],
            ss: self.words()[w + 21],
        }
    }

    /// Snapshot of the whole stack based at `stk`.
    pub fn read_stack(&self, stk: u64) -> (b: StkBuffer)
        requires
            self.wf(),
            self.valid_stack(stk),
        ensures
            b.data@.len() == 1024,
            forall|w: int| 0 <= w < 1024 ==> b.data@[w] == self.words()[self.word_at(stk) + w],
    {
        let mut data: Vec<u64> = Vec::new();
        let mut i: usize = 0;
        while i < STACK_SIZE
            invariant
                i <= 1024,
                data@.len() == i,
                self.wf(),
                self.valid_stack(stk),
                forall|w: int| 0 <= w < i ==> data@[w] == self.words()[self.word_at(stk) + w],
            decreases STACK_SIZE - i,
        {
            proof {
                self.lemma_stack_word(stk, i as int);
            }
            data.push(self.read_word(stk + 8 * (i as u64)));
            i = i + 1;
        }
        StkBuffer { data }
    }
}

/// The kernel's own stack: the block the interrupt path runs on, and the
/// saved kernel stack-pointer value the restore trampoline loads.
pub struct SysStack {
    sys_stack: u64,
    sys_rsp: u64,
}

impl SysStack {
    /// Base address of the kernel stack.
    pub closed spec fn spec_stack(self) -> u64 {
        self.sys_stack
    }

    /// Saved kernel stack pointer.
    pub closed spec fn spec_rsp(self) -> u64 {
        self.sys_rsp
    }

    /// A system-stack record over the stack based at `stk`.
    pub fn new(stk: u64) -> (r: SysStack)
        ensures
            r.spec_stack() == stk,
            r.spec_rsp() == 0,
    {
        SysStack { sys_stack: stk, sys_rsp: 0 }
    }

    /// Sets the system's stack pointer.
    pub fn set_rsp(&mut self, val: u64)
        ensures
            final(self).spec_rsp() == val,
            final(self).spec_stack() == old(self).spec_stack(),
    {
        self.sys_rsp = val;
    }

    /// Gets the system's stack pointer.
    pub fn get_rsp(&self) -> (r: u64)
        ensures
            r == self.spec_rsp(),
    {
        self.sys_rsp
    }

    /// Gets the base address of the system's stack.
    pub fn get_stack(&self) -> (r: u64)
        ensures
            r == self.spec_stack(),
    {
        self.sys_stack
    }
}

/// Initializes the system stack: parks the saved kernel stack pointer
/// just below the top of the kernel stack.
pub fn _stk_init(stk: &mut SysStack)
    requires
        old(stk).spec_stack() as int + STACK_BYTES as int <= u64::MAX as int,
    ensures
        final(stk).spec_stack() == old(stk).spec_stack(),
        final(stk).spec_rsp() == old(stk).spec_stack() as int + STACK_BYTES as int - 2,
{
    let base = stk.get_stack();
    let rsp = base + STACK_BYTES - 2;
    stk.set_rsp(rsp);
}

} // verus!
