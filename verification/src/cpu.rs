use vstd::prelude::*;
use vstd::arithmetic::div_mod::{
    lemma_fundamental_div_mod, lemma_mod_bound,
    lemma_div_by_multiple, lemma_div_is_ordered, lemma_fundamental_div_mod_converse,
};

use crate::display::DisplayMode;

verus! {

/// Interpreter configuration: `debug` asks the host to trace execution.
/// The core itself never prints; the host reads this flag.
#[derive(Clone, Copy, Debug)]
pub struct Mode {
    pub debug: bool,
}

/// One delay/sound timer decrement happens per this many microseconds of
/// accumulated host time (the 60 Hz timer rate).
pub const TICK_MICROS: u64 = 16667;

/// The five bytes per glyph of the built-in 4x5 font (16 glyphs), followed by
/// the ten bytes per glyph of the SUPER-CHIP 8x10 font (16 glyphs).
pub open spec fn font_spec() -> Seq<u8> {
    seq![
        0xF0u8, 0x90, 0x90, 0x90, 0xF0,
        0x20, 0x60, 0x20, 0x20, 0x70,
        0xF0, 0x10, 0xF0, 0x80, 0xF0,
        0xF0, 0x10, 0xF0, 0x10, 0xF0,
        0x90, 0x90, 0xF0, 0x10, 0x10,
        0xF0, 0x80, 0xF0, 0x10, 0xF0,
        0xF0, 0x80, 0xF0, 0x90, 0xF0,
        0xF0, 0x10, 0x20, 0x40, 0x40,
        0xF0, 0x90, 0xF0, 0x90, 0xF0,
        0xF0, 0x90, 0xF0, 0x10, 0xF0,
        0xF0, 0x90, 0xF0, 0x90, 0x90,
        0xE0, 0x90, 0xE0, 0x90, 0xE0,
        0xF0, 0x80, 0x80, 0x80, 0x80,
        0xF0, 0x90, 0x90, 0x90, 0xE0,
        0xF0, 0x80, 0xF0, 0x80, 0xF0,
        0xF0, 0x80, 0xF0, 0x80, 0x80,
        0xFF, 0xFF, 0xC3, 0xC3, 0xC3, 0xC3, 0xC3, 0xC3, 0xFF, 0xFF,
        0x18, 0x78, 0x78, 0x18, 0x18, 0x18, 0x18, 0x18, 0xFF, 0xFF,
        0xFF, 0xFF, 0x03, 0x03, 0xFF, 0xFF, 0xC0, 0xC0, 0xFF, 0xFF,
        0xFF, 0xFF, 0x03, 0x03, 0xFF, 0xFF, 0x03, 0x03, 0xFF, 0xFF,
        0xC3, 0xC3, 0xC3, 0xC3, 0xFF, 0xFF, 0x03, 0x03, 0x03, 0x03,
        0xFF, 0xFF, 0xC0, 0xC0, 0xFF, 0xFF, 0x03, 0x03, 0xFF, 0xFF,
        0xFF, 0xFF, 0xC0, 0xC0, 0xFF, 0xFF, 0xC3, 0xC3, 0xFF, 0xFF,
        0xFF, 0xFF, 0x03, 0x03, 0x06, 0x0C, 0x18, 0x18, 0x18, 0x18,
        0xFF, 0xFF, 0xC3, 0xC3, 0xFF, 0xFF, 0xC3, 0xC3, 0xFF, 0xFF,
        0xFF, 0xFF, 0xC3, 0xC3, 0xFF, 0xFF, 0x03, 0x03, 0xFF, 0xFF,
        0x7E, 0xFF, 0xC3, 0xC3, 0xC3, 0xFF, 0xFF, 0xC3, 0xC3, 0xC3,
        0xFC, 0xFC, 0xC3, 0xC3, 0xFC, 0xFC, 0xC3, 0xC3, 0xFC, 0xFC,
        0x3C, 0xFF, 0xC3, 0xC0, 0xC0, 0xC0, 0xC0, 0xC3, 0xFF, 0x3C,
        0xFC, 0xFE, 0xC3, 0xC3, 0xC3, 0xC3, 0xC3, 0xC3, 0xFE, 0xFC,
        0xFF, 0xFF, 0xC0, 0xC0, 0xFF, 0xFF, 0xC0, 0xC0, 0xFF, 0xFF,
        0xFF, 0xFF, 0xC0, 0xC0, 0xFF, 0xFF, 0xC0, 0xC0, 0xC0, 0xC0,
    ]
}

/// The abstract state of the interpreter: every contract speaks of this.
#[verifier::ext_equal]
pub struct CpuView {
    pub mem: Seq<u8>,
    pub v: Seq<u8>,
    pub i: u16,
    pub pc: u16,
    pub stack: Seq<u16>,
    pub sp: u16,
    pub delay: u8,
    pub sound: u8,
    pub delay_acc: u64,
    pub sound_acc: u64,
    pub rpl: Seq<u8>,
    pub pixels: Seq<bool>,
    pub keypad: Seq<u8>,
    pub extended: bool,
    pub draw_flag: bool,
    pub unknown: Option<u16>,
    pub debug: bool,
    pub speed: u8,
}

/// Well-formedness: the sizes the architecture fixes, the stack pointer in
/// range, and a running timer always less than one period away from its next
/// decrement.
pub open spec fn wf(c: CpuView) -> bool {
    &&& c.mem.len() == 4096
    &&& c.v.len() == 16
    &&& c.stack.len() == 16
    &&& c.sp < 16
    &&& c.rpl.len() == 8
    &&& c.pixels.len() == 8192
    &&& c.keypad.len() == 16
    &&& (c.delay > 0 ==> c.delay_acc < TICK_MICROS)
    &&& (c.sound > 0 ==> c.sound_acc < TICK_MICROS)
}

/// The CHIP-8 interpreter core: memory, registers, stack, timers and the
/// frame buffer. The host supplies keypad snapshots and elapsed time, and
/// renders the frame buffer when `draw_flag` says so.
pub struct Cpu {
    memory: Vec<u8>,
    v: Vec<u8>,
    i: u16,
    pc: u16,
    stack: Vec<u16>,
    sp: u16,
    delay_timer: u8,
    sound_timer: u8,
    tick_acc: u64,
    snd_acc: u64,
    rpl_flags: Vec<u8>,
    pixels: Vec<bool>,
    keypad: Vec<u8>,
    pub mode: Mode,
    pub display_mode: DisplayMode,
    pub speed: u8,
    draw_flag: bool,
    unknown_op: Option<u16>,
}

impl View for Cpu {
    type V = CpuView;

    closed spec fn view(&self) -> CpuView {
        CpuView {
            mem: self.memory@,
            v: self.v@,
            i: self.i,
            pc: self.pc,
            stack: self.stack@,
            sp: self.sp,
            delay: self.delay_timer,
            sound: self.sound_timer,
            delay_acc: self.tick_acc,
            sound_acc: self.snd_acc,
            rpl: self.rpl_flags@,
            pixels: self.pixels@,
            keypad: self.keypad@,
            extended: self.display_mode == DisplayMode::Extended,
            draw_flag: self.draw_flag,
            unknown: self.unknown_op,
            debug: self.mode.debug,
            speed: self.speed,
        }
    }
}

/// The state a freshly built interpreter is in: font at the bottom of memory,
/// everything else cleared, the program counter at 0x200.
pub open spec fn init_spec() -> CpuView {
    CpuView {
        mem: font_spec() + Seq::new(3856, |k: int| 0u8),
        v: Seq::new(16, |k: int| 0u8),
        i: 0,
        pc: 0x200,
        stack: Seq::new(16, |k: int| 0u16),
        sp: 0,
        delay: 0,
        sound: 0,
        delay_acc: 0,
        sound_acc: 0,
        rpl: Seq::new(8, |k: int| 0u8),
        pixels: Seq::new(8192, |k: int| false),
        keypad: Seq::new(16, |k: int| 0u8),
        extended: false,
        draw_flag: false,
        unknown: None,
        debug: false,
        speed: 2,
    }
}

/// The font bytes occupy the bottom of memory unchanged.
pub open spec fn font_loaded(c: CpuView) -> bool {
    c.mem.len() == 4096 && forall|a: int| 0 <= a < 240 ==> c.mem[a] == font_spec()[a]
}

/// A vector of `n` copies of `val`.
fn filled<T: Copy>(n: usize, val: T) -> (r: Vec<T>)
    ensures
        r@ == Seq::new(n as nat, |k: int| val),
{
    let mut r: Vec<T> = Vec::new();
    while r.len() < n
        invariant
            r.len() <= n,
            r@ =~= Seq::new(r.len() as nat, |k: int| val),
        decreases n - r.len(),
    {
        r.push(val);
    }
    proof {
        assert(r@ =~= Seq::new(n as nat, |k: int| val));
    }
    r
}

/// The built-in font as a vector.
fn font_table() -> (r: Vec<u8>)
    ensures
        r@ == font_spec(),
{
    let a: [u8; 240] = [
        0xF0, 0x90, 0x90, 0x90, 0xF0,
        0x20, 0x60, 0x20, 0x20, 0x70,
        0xF0, 0x10, 0xF0, 0x80, 0xF0,
        0xF0, 0x10, 0xF0, 0x10, 0xF0,
        0x90, 0x90, 0xF0, 0x10, 0x10,
        0xF0, 0x80, 0xF0, 0x10, 0xF0,
        0xF0, 0x80, 0xF0, 0x90, 0xF0,
        0xF0, 0x10, 0x20, 0x40, 0x40,
        0xF0, 0x90, 0xF0, 0x90, 0xF0,
        0xF0, 0x90, 0xF0, 0x10, 0xF0,
        0xF0, 0x90, 0xF0, 0x90, 0x90,
        0xE0, 0x90, 0xE0, 0x90, 0xE0,
        0xF0, 0x80, 0x80, 0x80, 0x80,
        0xF0, 0x90, 0x90, 0x90, 0xE0,
        0xF0, 0x80, 0xF0, 0x80, 0xF0,
        0xF0, 0x80, 0xF0, 0x80, 0x80,
        0xFF, 0xFF, 0xC3, 0xC3, 0xC3, 0xC3, 0xC3, 0xC3, 0xFF, 0xFF,
        0x18, 0x78, 0x78, 0x18, 0x18, 0x18, 0x18, 0x18, 0xFF, 0xFF,
        0xFF, 0xFF, 0x03, 0x03, 0xFF, 0xFF, 0xC0, 0xC0, 0xFF, 0xFF,
        0xFF, 0xFF, 0x03, 0x03, 0xFF, 0xFF, 0x03, 0x03, 0xFF, 0xFF,
        0xC3, 0xC3, 0xC3, 0xC3, 0xFF, 0xFF, 0x03, 0x03, 0x03, 0x03,
        0xFF, 0xFF, 0xC0, 0xC0, 0xFF, 0xFF, 0x03, 0x03, 0xFF, 0xFF,
        0xFF, 0xFF, 0xC0, 0xC0, 0xFF, 0xFF, 0xC3, 0xC3, 0xFF, 0xFF,
        0xFF, 0xFF, 0x03, 0x03, 0x06, 0x0C, 0x18, 0x18, 0x18, 0x18,
        0xFF, 0xFF, 0xC3, 0xC3, 0xFF, 0xFF, 0xC3, 0xC3, 0xFF, 0xFF,
        0xFF, 0xFF, 0xC3, 0xC3, 0xFF, 0xFF, 0x03, 0x03, 0xFF, 0xFF,
        0x7E, 0xFF, 0xC3, 0xC3, 0xC3, 0xFF, 0xFF, 0xC3, 0xC3, 0xC3,
        0xFC, 0xFC, 0xC3, 0xC3, 0xFC, 0xFC, 0xC3, 0xC3, 0xFC, 0xFC,
        0x3C, 0xFF, 0xC3, 0xC0, 0xC0, 0xC0, 0xC0, 0xC3, 0xFF, 0x3C,
        0xFC, 0xFE, 0xC3, 0xC3, 0xC3, 0xC3, 0xC3, 0xC3, 0xFE, 0xFC,
        0xFF, 0xFF, 0xC0, 0xC0, 0xFF, 0xFF, 0xC0, 0xC0, 0xFF, 0xFF,
        0xFF, 0xFF, 0xC0, 0xC0, 0xFF, 0xFF, 0xC0, 0xC0, 0xC0, 0xC0,
    ];
    let mut r: Vec<u8> = Vec::new();
    let mut k: usize = 0;
    while k < 240
        invariant
            k <= 240,
            r@ =~= a@.subrange(0, k as int),
            a@ =~= font_spec(),
        decreases 240 - k,
    {
        r.push(a[k]);
        k = k + 1;
    }
    proof {
        assert(r@ =~= font_spec());
    }
    r
}

/// Why loading a ROM was refused.
#[derive(Clone, Copy, Debug, PartialEq, Eq, Structural)]
pub enum RomError {
    TooLarge,
}

impl Cpu {
    /// A fresh interpreter: memory zeroed except the font, PC at 0x200.
    pub fn new() -> (c: Cpu)
        ensures
            c@ == init_spec(),
            wf(c@),
            font_loaded(c@),
    {
        let mut memory: Vec<u8> = font_table();
        while memory.len() < 4096
            invariant
                240 <= memory.len() <= 4096,
                memory@ =~= font_spec() + Seq::new((memory.len() - 240) as nat, |k: int| 0u8),
            decreases 4096 - memory.len(),
        {
            memory.push(0);
        }
        let c = Cpu {
            memory,
            v: filled(16, 0u8),
            i: 0,
            pc: 0x200,
            stack: filled(16, 0u16),
            sp: 0,
            delay_timer: 0,
            sound_timer: 0,
            tick_acc: 0,
            snd_acc: 0,
            rpl_flags: filled(8, 0u8),
            pixels: filled(8192, false),
            keypad: filled(16, 0u8),
            mode: Mode { debug: false },
            display_mode: DisplayMode::Normal,
            speed: 2,
            draw_flag: false,
            unknown_op: None,
        };
        proof {
            assert(c@ =~= init_spec());
            assert forall|a: int| 0 <= a < 240 implies c@.mem[a] == font_spec()[a] by {
                assert(c@.mem[a] == (font_spec() + Seq::new(3856, |k: int| 0u8))[a]);
            };
        }
        c
    }

    /// Copies a ROM image to memory starting at 0x200. A ROM of more than
    /// 3583 bytes is refused and nothing changes. Loading never touches the
    /// font region at the bottom of memory.
    pub fn load_bin(&mut self, rom: &Vec<u8>) -> (r: Result<(), RomError>)
        requires
            wf(old(self)@),
        ensures
            wf(final(self)@),
            font_loaded(old(self)@) ==> font_loaded(final(self)@),
            r is Ok <==> rom@.len() <= 3583,
            r is Ok ==> final(self)@ == (CpuView {
                mem: Seq::new(4096, |a: int| if 512 <= a < 512 + rom@.len() {
                    rom@[a - 512]
                } else {
                    old(self)@.mem[a]
                }),
                ..old(self)@
            }),
            r is Err ==> final(self)@ == old(self)@,
    {
        if rom.len() > 3583 {
            return Err(RomError::TooLarge);
        }
        let mut k: usize = 0;
        while k < rom.len()
            invariant
                wf(old(self)@),
                rom@.len() <= 3583,
                k <= rom@.len(),
                self@ == (CpuView {
                    mem: Seq::new(4096, |a: int| if 512 <= a < 512 + k {
                        rom@[a - 512]
                    } else {
                        old(self)@.mem[a]
                    }),
                    ..old(self)@
                }),
            decreases rom@.len() - k,
        {
            self.memory.set(512 + k, rom[k]);
            k = k + 1;
            proof {
                assert(self@.mem =~= Seq::new(4096, |a: int| if 512 <= a < 512 + k {
                    rom@[a - 512]
                } else {
                    old(self)@.mem[a]
                }));
                assert(self@ =~= (CpuView {
                    mem: Seq::new(4096, |a: int| if 512 <= a < 512 + k {
                        rom@[a - 512]
                    } else {
                        old(self)@.mem[a]
                    }),
                    ..old(self)@
                }));
            }
        }
        proof {
            assert(self@ =~= (CpuView {
                mem: Seq::new(4096, |a: int| if 512 <= a < 512 + rom@.len() {
                    rom@[a - 512]
                } else {
                    old(self)@.mem[a]
                }),
                ..old(self)@
            }));
        }
        Ok(())
    }

    /// The reset transform: registers, stack pointer, timers, PC and frame
    /// buffer cleared, a pending unknown-opcode report dropped; memory (font
    /// included), RPL flags and mode kept.
    pub fn reset(&mut self)
        requires
            wf(old(self)@),
        ensures
            wf(final(self)@),
            final(self)@ == reset_spec(old(self)@),
    {
        self.v = filled(16, 0u8);
        self.i = 0;
        self.pc = 0x200;
        self.sp = 0;
        self.delay_timer = 0;
        self.sound_timer = 0;
        self.tick_acc = 0;
        self.snd_acc = 0;
        self.pixels = filled(8192, false);
        self.draw_flag = true;
        self.unknown_op = None;
        proof {
            assert(self@ =~= reset_spec(old(self)@));
        }
    }
}

impl Cpu {
    /// The 8XYN register ALU operations.
    fn exec_alu(&mut self, op: u16)
        requires
            wf(old(self)@),
            op_fam(op) == 8,
        ensures
            wf(final(self)@),
            final(self)@ == alu_spec(old(self)@, op),
    {
        let x = ((op / 256) % 16) as usize;
        let y = ((op / 16) % 16) as usize;
        let n: u16 = op % 16;
        if n == 0 {
            let vy = self.v[y];
            self.v.set(x, vy);
            self.pc = self.pc.wrapping_add(2);
            proof {
                assert(final(self)@ =~= alu_spec(old(self)@, op));
            }
        } else if n == 1 {
            let r: u8 = self.v[x] | self.v[y];
            self.v.set(x, r);
            self.pc = self.pc.wrapping_add(2);
            proof {
                assert(final(self)@ =~= alu_spec(old(self)@, op));
            }
        } else if n == 2 {
            let r: u8 = self.v[x] & self.v[y];
            self.v.set(x, r);
            self.pc = self.pc.wrapping_add(2);
            proof {
                assert(final(self)@ =~= alu_spec(old(self)@, op));
            }
        } else if n == 3 {
            let r: u8 = self.v[x] ^ self.v[y];
            self.v.set(x, r);
            self.pc = self.pc.wrapping_add(2);
            proof {
                assert(final(self)@ =~= alu_spec(old(self)@, op));
            }
        } else if n == 4 {
            let sum: u16 = self.v[x] as u16 + self.v[y] as u16;
            self.v.set(x, (sum % 256) as u8);
            let flag: u8 = if sum > 255 { 1 } else { 0 };
            self.v.set(15, flag);
            self.pc = self.pc.wrapping_add(2);
            proof {
                assert(final(self)@ =~= alu_spec(old(self)@, op));
            }
        } else if n == 5 {
            let vx = self.v[x];
            let vy = self.v[y];
            self.v.set(x, vx.wrapping_sub(vy));
            let flag: u8 = if vy > vx { 0 } else { 1 };
            self.v.set(15, flag);
            self.pc = self.pc.wrapping_add(2);
            proof {
                assert(final(self)@ =~= alu_spec(old(self)@, op));
            }
        } else if n == 6 {
            let flag: u8 = self.v[x] & 1;
            self.v.set(15, flag);
            let vx = self.v[x];
            self.v.set(x, vx >> 1u8);
            self.pc = self.pc.wrapping_add(2);
            proof {
                assert(final(self)@ =~= alu_spec(old(self)@, op));
            }
        } else if n == 7 {
            let vx = self.v[x];
            let vy = self.v[y];
            self.v.set(x, vy.wrapping_sub(vx));
            let flag: u8 = if vx > vy { 0 } else { 1 };
            self.v.set(15, flag);
            self.pc = self.pc.wrapping_add(2);
            proof {
                assert(final(self)@ =~= alu_spec(old(self)@, op));
            }
        } else if n == 14 {
            let flag: u8 = (self.v[x] >> 7u8) & 1;
            self.v.set(15, flag);
            let vx = self.v[x];
            self.v.set(x, vx << 1u8);
            self.pc = self.pc.wrapping_add(2);
            proof {
                assert(final(self)@ =~= alu_spec(old(self)@, op));
            }
        } else {
            // Unknown ALU sub-opcode: report it and skip.
            self.unknown_op = Some(op);
            self.pc = self.pc.wrapping_add(2);
            proof {
                assert(final(self)@ =~= alu_spec(old(self)@, op));
            }
        }
    }

    /// Scrolls the frame buffer down by `s` rows (00CN).
    fn scroll_down(&mut self, s: usize)
        requires
            wf(old(self)@),
            s <= 15,
        ensures
            wf(final(self)@),
            final(self)@ == scroll_down_spec(old(self)@, s as int),
    {
        let mut np: Vec<bool> = Vec::new();
        while np.len() < 8192
            invariant
                wf(old(self)@),
                self@ == old(self)@,
                s <= 15,
                np.len() <= 8192,
                forall|q: int| 0 <= q < np.len() ==> np@[q] == (if q / 128 < s {
                    false
                } else {
                    old(self)@.pixels[q - s * 128]
                }),
            decreases 8192 - np.len(),
        {
            let p = np.len();
            let val = if p / 128 < s {
                false
            } else {
                proof {
                    lemma_fundamental_div_mod(p as int, 128);
                }
                self.pixels[p - s * 128]
            };
            np.push(val);
        }
        self.pixels = np;
        self.draw_flag = true;
        self.pc = self.pc.wrapping_add(2);
        proof {
            assert(self@.pixels =~= scroll_down_spec(old(self)@, s as int).pixels);
            assert(self@ =~= scroll_down_spec(old(self)@, s as int));
        }
    }

    /// Scrolls the frame buffer right by the mode's scroll step (00FB).
    fn scroll_right(&mut self)
        requires
            wf(old(self)@),
        ensures
            wf(final(self)@),
            final(self)@ == scroll_right_spec(old(self)@),
    {
        let s: usize = if self.display_mode == DisplayMode::Extended {
            4
        } else {
            2
        };
        let mut np: Vec<bool> = Vec::new();
        while np.len() < 8192
            invariant
                wf(old(self)@),
                self@ == old(self)@,
                s == scroll_step(old(self)@),
                np.len() <= 8192,
                forall|q: int| 0 <= q < np.len() ==> np@[q] == (if q % 128 < s {
                    false
                } else {
                    old(self)@.pixels[q - s]
                }),
            decreases 8192 - np.len(),
        {
            let p = np.len();
            let val = if p % 128 < s {
                false
            } else {
                proof {
                    lemma_fundamental_div_mod(p as int, 128);
                }
                self.pixels[p - s]
            };
            np.push(val);
        }
        self.pixels = np;
        self.draw_flag = true;
        self.pc = self.pc.wrapping_add(2);
        proof {
            assert(self@.pixels =~= scroll_right_spec(old(self)@).pixels);
            assert(self@ =~= scroll_right_spec(old(self)@));
        }
    }

    /// Scrolls the frame buffer left by the mode's scroll step (00FC).
    fn scroll_left(&mut self)
        requires
            wf(old(self)@),
        ensures
            wf(final(self)@),
            final(self)@ == scroll_left_spec(old(self)@),
    {
        let s: usize = if self.display_mode == DisplayMode::Extended {
            4
        } else {
            2
        };
        let mut np: Vec<bool> = Vec::new();
        while np.len() < 8192
            invariant
                wf(old(self)@),
                self@ == old(self)@,
                s == scroll_step(old(self)@),
                np.len() <= 8192,
                forall|q: int| 0 <= q < np.len() ==> np@[q] == (if q % 128 >= 128 - s {
                    false
                } else {
                    old(self)@.pixels[q + s]
                }),
            decreases 8192 - np.len(),
        {
            let p = np.len();
            let val = if p % 128 >= 128 - s {
                false
            } else {
                proof {
                    lemma_fundamental_div_mod(p as int, 128);
                    assert(p / 128 <= 63);
                }
                self.pixels[p + s]
            };
            np.push(val);
        }
        self.pixels = np;
        self.draw_flag = true;
        self.pc = self.pc.wrapping_add(2);
        proof {
            assert(self@.pixels =~= scroll_left_spec(old(self)@).pixels);
            assert(self@ =~= scroll_left_spec(old(self)@));
        }
    }

    /// Family 0: clear, return, scrolls, mode switches, reset.
    fn exec_sys(&mut self, op: u16)
        requires
            wf(old(self)@),
            op_fam(op) == 0,
        ensures
            wf(final(self)@),
            final(self)@ == sys_spec(old(self)@, op),
    {
        let mid: u16 = (op % 256) / 16;
        if mid == 12 {
            let n = (op % 16) as usize;
            let s = if self.display_mode == DisplayMode::Extended {
                n
            } else {
                n / 2
            };
            self.scroll_down(s);
        } else {
            let low: u16 = op % 256;
            if low == 0xE0 {
                self.pixels = filled(8192, false);
                self.draw_flag = true;
                self.pc = self.pc.wrapping_add(2);
                proof {
                    assert(final(self)@ =~= sys_spec(old(self)@, op));
                }
            } else if low == 0xEE {
                let nsp: u16 = (self.sp + 15) % 16;
                self.sp = nsp;
                self.pc = self.stack[nsp as usize].wrapping_add(2);
                proof {
                    assert(final(self)@ =~= sys_spec(old(self)@, op));
                }
            } else if low == 0xFB {
                self.scroll_right();
            } else if low == 0xFC {
                self.scroll_left();
            } else if low == 0xFD {
                self.reset();
            } else if low == 0xFE {
                self.display_mode = DisplayMode::Normal;
                self.pc = self.pc.wrapping_add(2);
                proof {
                    assert(final(self)@ =~= sys_spec(old(self)@, op));
                }
            } else if low == 0xFF {
                self.display_mode = DisplayMode::Extended;
                self.pc = self.pc.wrapping_add(2);
                proof {
                    assert(final(self)@ =~= sys_spec(old(self)@, op));
                }
            } else {
                // Opcode 0x0000 and unknown codes: report them and skip.
                self.unknown_op = Some(op);
                self.pc = self.pc.wrapping_add(2);
                proof {
                    assert(final(self)@ =~= sys_spec(old(self)@, op));
                }
            }
        }
    }

    /// The DXYN sprite draw: XORs the sprite into the frame buffer with
    /// toroidal wrap-around and reports collisions in VF.
    #[verifier::rlimit(60)]
    fn exec_draw(&mut self, op: u16)
        requires
            wf(old(self)@),
            op_fam(op) == 13,
        ensures
            wf(final(self)@),
            final(self)@ == draw_spec(old(self)@, op),
    {
        let ghost c0 = old(self)@;
        let x = ((op / 256) % 16) as usize;
        let y = ((op / 16) % 16) as usize;
        let n: u16 = op % 16;
        let ext = self.display_mode == DisplayMode::Extended;
        let wide = n == 0 && ext;
        let w: usize = if wide { 16 } else { 8 };
        let h: usize = if wide { 16 } else { n as usize };
        let aw: usize = if ext { 128 } else { 64 };
        let ah: usize = if ext { 64 } else { 32 };
        let sx = self.v[x] as usize;
        let sy = self.v[y] as usize;
        let mut collided: bool = false;
        let mut j: usize = 0;
        while j < h
            invariant
                c0 == old(self)@,
                wf(c0),
                op_fam(op) == 13,
                j <= h,
                w == spr_w(c0, op),
                h == spr_h(c0, op),
                aw == act_w(c0),
                ah == act_h(c0),
                wide == (spr_w(c0, op) == 16),
                sx == c0.v[op_x(op)],
                sy == c0.v[op_y(op)],
                self@ == (CpuView { pixels: self@.pixels, ..c0 }),
                self@.pixels.len() == 8192,
                forall|p: int| 0 <= p < 8192 ==> self@.pixels[p] == (c0.pixels[p] != hit_before(
                    c0,
                    op,
                    j as int,
                    0,
                    p,
                )),
                collided == col_before(c0, op, j as int, 0),
            decreases h - j,
        {
            let row: u16 = if wide {
                let b0 = self.memory[(self.i as usize + 2 * j) % 4096];
                let b1 = self.memory[(self.i as usize + 2 * j + 1) % 4096];
                (b0 as u16) * 256 + (b1 as u16)
            } else {
                self.memory[(self.i as usize + j) % 4096] as u16
            };
            proof {
                assert(row == spr_row(c0, op, j as int));
            }
            let mut kk: usize = 0;
            while kk < w
                invariant
                    c0 == old(self)@,
                    wf(c0),
                    op_fam(op) == 13,
                    j < h,
                    kk <= w,
                    w == spr_w(c0, op),
                    h == spr_h(c0, op),
                    aw == act_w(c0),
                    ah == act_h(c0),
                    sx == c0.v[op_x(op)],
                    sy == c0.v[op_y(op)],
                    row == spr_row(c0, op, j as int),
                    self@ == (CpuView { pixels: self@.pixels, ..c0 }),
                    self@.pixels.len() == 8192,
                    forall|p: int| 0 <= p < 8192 ==> self@.pixels[p] == (c0.pixels[p]
                        != hit_before(c0, op, j as int, kk as int, p)),
                    collided == col_before(c0, op, j as int, kk as int),
                decreases w - kk,
            {
                let sh16: u16 = (w - 1 - kk) as u16;
                if (row >> sh16) & 1 == 1 {
                    let ty = (sy + j) % ah;
                    let tx = (sx + kk) % aw;
                    let t = ty * 128 + tx;
                    proof {
                        assert(spr_bit(c0, op, j as int, kk as int));
                        lemma_mod_bound((sy + j) as int, ah as int);
                        lemma_mod_bound((sx + kk) as int, aw as int);
                        assert(t == tgt_idx(c0, op, j as int, kk as int));
                        assert(t < 8192);
                        assert(!hit_before(c0, op, j as int, kk as int, t as int)) by {
                            if hit_before(c0, op, j as int, kk as int, t as int) {
                                let (a, b) = choose|a: int, b: int|
                                    0 <= a < spr_h(c0, op) && 0 <= b < spr_w(c0, op) && (a < j
                                        || (a == j && b < kk)) && #[trigger] spr_bit(c0, op, a, b)
                                        && t == tgt_idx(c0, op, a, b);
                                lemma_tgt_inj(c0, op, a, b, j as int, kk as int);
                            }
                        };
                    }
                    let cur = self.pixels[t];
                    if cur {
                        collided = true;
                    }
                    self.pixels.set(t, !cur);
                    proof {
                        assert(cur == c0.pixels[t as int]);
                        assert forall|p: int| 0 <= p < 8192 implies self@.pixels[p] == (
                        c0.pixels[p] != hit_before(c0, op, j as int, kk + 1, p)) by {
                            if p == t {
                                assert(hit_before(c0, op, j as int, kk + 1, t as int));
                            } else {
                                assert(hit_before(c0, op, j as int, kk + 1, p) == hit_before(
                                    c0,
                                    op,
                                    j as int,
                                    kk as int,
                                    p,
                                )) by {
                                    if hit_before(c0, op, j as int, kk + 1, p) {
                                        let (a, b) = choose|a: int, b: int|
                                            0 <= a < spr_h(c0, op) && 0 <= b < spr_w(c0, op) && (a
                                                < j || (a == j && b < kk + 1))
                                                && #[trigger] spr_bit(c0, op, a, b) && p == tgt_idx(
                                                c0,
                                                op,
                                                a,
                                                b,
                                            );
                                        if a == j && b == kk {
                                            assert(false);
                                        } else {
                                            assert(hit_before(c0, op, j as int, kk as int, p));
                                        }
                                    }
                                    if hit_before(c0, op, j as int, kk as int, p) {
                                        let (a, b) = choose|a: int, b: int|
                                            0 <= a < spr_h(c0, op) && 0 <= b < spr_w(c0, op) && (a
                                                < j || (a == j && b < kk))
                                                && #[trigger] spr_bit(c0, op, a, b) && p == tgt_idx(
                                                c0,
                                                op,
                                                a,
                                                b,
                                            );
                                        assert(hit_before(c0, op, j as int, kk + 1, p));
                                    }
                                };
                            }
                        };
                        assert(collided == col_before(c0, op, j as int, kk + 1)) by {
                            if cur {
                                assert(c0.pixels[tgt_idx(c0, op, j as int, kk as int)]);
                                assert(col_before(c0, op, j as int, kk + 1));
                            } else {
                                if col_before(c0, op, j as int, kk + 1) {
                                    let (a, b) = choose|a: int, b: int|
                                        0 <= a < spr_h(c0, op) && 0 <= b < spr_w(c0, op) && (a < j
                                            || (a == j && b < kk + 1)) && #[trigger] spr_bit(
                                            c0,
                                            op,
                                            a,
                                            b,
                                        ) && c0.pixels[tgt_idx(c0, op, a, b)];
                                    if a == j && b == kk {
                                        assert(false);
                                    } else {
                                        assert(col_before(c0, op, j as int, kk as int));
                                    }
                                }
                                if col_before(c0, op, j as int, kk as int) {
                                    let (a, b) = choose|a: int, b: int|
                                        0 <= a < spr_h(c0, op) && 0 <= b < spr_w(c0, op) && (a < j
                                            || (a == j && b < kk)) && #[trigger] spr_bit(
                                            c0,
                                            op,
                                            a,
                                            b,
                                        ) && c0.pixels[tgt_idx(c0, op, a, b)];
                                    assert(col_before(c0, op, j as int, kk + 1));
                                }
                            }
                        };
                    }
                } else {
                    proof {
                        assert(!spr_bit(c0, op, j as int, kk as int));
                        assert forall|p: int| 0 <= p < 8192 implies self@.pixels[p] == (
                        c0.pixels[p] != hit_before(c0, op, j as int, kk + 1, p)) by {
                            assert(hit_before(c0, op, j as int, kk + 1, p) == hit_before(
                                c0,
                                op,
                                j as int,
                                kk as int,
                                p,
                            )) by {
                                if hit_before(c0, op, j as int, kk + 1, p) {
                                    let (a, b) = choose|a: int, b: int|
                                        0 <= a < spr_h(c0, op) && 0 <= b < spr_w(c0, op) && (a < j
                                            || (a == j && b < kk + 1)) && #[trigger] spr_bit(
                                            c0,
                                            op,
                                            a,
                                            b,
                                        ) && p == tgt_idx(c0, op, a, b);
                                    if a == j && b == kk {
                                        assert(false);
                                    } else {
                                        assert(hit_before(c0, op, j as int, kk as int, p));
                                    }
                                }
                                if hit_before(c0, op, j as int, kk as int, p) {
                                    let (a, b) = choose|a: int, b: int|
                                        0 <= a < spr_h(c0, op) && 0 <= b < spr_w(c0, op) && (a < j
                                            || (a == j && b < kk)) && #[trigger] spr_bit(
                                            c0,
                                            op,
                                            a,
                                            b,
                                        ) && p == tgt_idx(c0, op, a, b);
                                    assert(hit_before(c0, op, j as int, kk + 1, p));
                                }
                            };
                        };
                        assert(collided == col_before(c0, op, j as int, kk + 1)) by {
                            if col_before(c0, op, j as int, kk + 1) {
                                let (a, b) = choose|a: int, b: int|
                                    0 <= a < spr_h(c0, op) && 0 <= b < spr_w(c0, op) && (a < j || (
                                    a == j && b < kk + 1)) && #[trigger] spr_bit(c0, op, a, b)
                                        && c0.pixels[tgt_idx(c0, op, a, b)];
                                if a == j && b == kk {
                                    assert(false);
                                } else {
                                    assert(col_before(c0, op, j as int, kk as int));
                                }
                            }
                            if col_before(c0, op, j as int, kk as int) {
                                let (a, b) = choose|a: int, b: int|
                                    0 <= a < spr_h(c0, op) && 0 <= b < spr_w(c0, op) && (a < j || (
                                    a == j && b < kk)) && #[trigger] spr_bit(c0, op, a, b)
                                        && c0.pixels[tgt_idx(c0, op, a, b)];
                                assert(col_before(c0, op, j as int, kk + 1));
                            }
                        };
                    }
                }
                kk = kk + 1;
            }
            proof {
                lemma_prefix_row_boundary(c0, op, j as int);
            }
            j = j + 1;
        }
        let flag: u8 = if collided { 1 } else { 0 };
        self.v.set(15, flag);
        self.draw_flag = true;
        self.pc = self.pc.wrapping_add(2);
        proof {
            lemma_prefix_full(c0, op);
            assert(final(self)@.pixels =~= draw_spec(c0, op).pixels);
            assert(final(self)@ =~= draw_spec(c0, op));
        }
    }

    /// The FX family: timers, key wait, index arithmetic, font lookup, BCD
    /// and register block transfers.
    fn exec_fx(&mut self, op: u16)
        requires
            wf(old(self)@),
            op_fam(op) == 15,
        ensures
            wf(final(self)@),
            final(self)@ == fx_spec(old(self)@, op),
    {
        let x = ((op / 256) % 16) as usize;
        let low: u16 = op % 256;
        if low == 0x07 {
            let d = self.delay_timer;
            self.v.set(x, d);
            self.pc = self.pc.wrapping_add(2);
            proof {
                assert(final(self)@ =~= fx_spec(old(self)@, op));
            }
        } else if low == 0x0A {
            let mut k: usize = 0;
            let mut hit: bool = false;
            while k < 16 && !hit
                invariant
                    wf(old(self)@),
                    self@ == old(self)@,
                    k <= 16,
                    !hit ==> first_key_from(old(self)@.keypad, 0) == first_key_from(
                        old(self)@.keypad,
                        k as int,
                    ),
                    hit ==> k < 16 && first_key_from(old(self)@.keypad, 0) == Some(k as u8),
                decreases 16 - k + (if hit { 0int } else { 1 }),
            {
                if self.keypad[k] != 0 {
                    hit = true;
                } else {
                    k = k + 1;
                }
            }
            if hit {
                self.v.set(x, k as u8);
                self.pc = self.pc.wrapping_add(2);
                proof {
                    assert(final(self)@ =~= fx_spec(old(self)@, op));
                }
            } else {
                // No key is down: the same instruction runs again next step.
            }
        } else if low == 0x15 {
            self.delay_timer = self.v[x];
            self.tick_acc = 0;
            self.pc = self.pc.wrapping_add(2);
            proof {
                assert(final(self)@ =~= fx_spec(old(self)@, op));
            }
        } else if low == 0x18 {
            self.sound_timer = self.v[x];
            self.snd_acc = 0;
            self.pc = self.pc.wrapping_add(2);
            proof {
                assert(final(self)@ =~= fx_spec(old(self)@, op));
            }
        } else if low == 0x1E {
            self.i = self.i.wrapping_add(self.v[x] as u16);
            let flag: u8 = if self.i > 0xFFF { 1 } else { 0 };
            self.v.set(15, flag);
            self.pc = self.pc.wrapping_add(2);
            proof {
                assert(final(self)@ =~= fx_spec(old(self)@, op));
            }
        } else if low == 0x29 {
            self.i = self.v[x] as u16 * 5;
            self.pc = self.pc.wrapping_add(2);
            proof {
                assert(final(self)@ =~= fx_spec(old(self)@, op));
            }
        } else if low == 0x30 {
            self.i = self.v[x] as u16 * 10 + 80;
            self.pc = self.pc.wrapping_add(2);
            proof {
                assert(final(self)@ =~= fx_spec(old(self)@, op));
            }
        } else if low == 0x33 {
            let vx = self.v[x];
            let i0 = (self.i as usize) % 4096;
            let i1 = (self.i as usize + 1) % 4096;
            let i2 = (self.i as usize + 2) % 4096;
            self.memory.set(i0, vx / 100);
            self.memory.set(i1, vx % 100 / 10);
            self.memory.set(i2, vx % 10);
            self.pc = self.pc.wrapping_add(2);
            proof {
                assert(final(self)@ =~= fx_spec(old(self)@, op));
            }
        } else if low == 0x55 {
            let mut k: usize = 0;
            while k < x + 1
                invariant
                    wf(old(self)@),
                    k <= x + 1,
                    x < 16,
                    self@.mem.len() == 4096,
                    self@ == (CpuView {
                        mem: store_regs(
                            old(self)@.mem,
                            old(self)@.v,
                            old(self)@.i as int,
                            k as int,
                        ),
                        ..old(self)@
                    }),
                decreases x + 1 - k,
            {
                let addr = (self.i as usize + k) % 4096;
                let val = self.v[k];
                self.memory.set(addr, val);
                k = k + 1;
                proof {
                    assert(self@ =~= (CpuView {
                        mem: store_regs(
                            old(self)@.mem,
                            old(self)@.v,
                            old(self)@.i as int,
                            k as int,
                        ),
                        ..old(self)@
                    }));
                }
            }
            self.pc = self.pc.wrapping_add(2);
            proof {
                assert(final(self)@ =~= fx_spec(old(self)@, op));
            }
        } else if low == 0x65 {
            let mut k: usize = 0;
            while k < x + 1
                invariant
                    wf(old(self)@),
                    k <= x + 1,
                    x < 16,
                    self@ == (CpuView {
                        v: Seq::new(16, |q: int| if 0 <= q < k {
                            old(self)@.mem[(old(self)@.i + q) % 4096]
                        } else {
                            old(self)@.v[q]
                        }),
                        ..old(self)@
                    }),
                decreases x + 1 - k,
            {
                let addr = (self.i as usize + k) % 4096;
                let val = self.memory[addr];
                self.v.set(k, val);
                k = k + 1;
                proof {
                    assert(self@.v =~= Seq::new(16, |q: int| if 0 <= q < k {
                        old(self)@.mem[(old(self)@.i + q) % 4096]
                    } else {
                        old(self)@.v[q]
                    }));
                    assert(self@ =~= (CpuView {
                        v: Seq::new(16, |q: int| if 0 <= q < k {
                            old(self)@.mem[(old(self)@.i + q) % 4096]
                        } else {
                            old(self)@.v[q]
                        }),
                        ..old(self)@
                    }));
                }
            }
            self.pc = self.pc.wrapping_add(2);
            proof {
                assert(final(self)@.v =~= fx_spec(old(self)@, op).v);
                assert(final(self)@ =~= fx_spec(old(self)@, op));
            }
        } else if low == 0x75 {
            let m: usize = if x < 7 { x } else { 7 };
            let mut k: usize = 0;
            while k < m + 1
                invariant
                    wf(old(self)@),
                    k <= m + 1,
                    m < 8,
                    self@ == (CpuView {
                        rpl: Seq::new(8, |q: int| if 0 <= q < k {
                            old(self)@.v[q]
                        } else {
                            old(self)@.rpl[q]
                        }),
                        ..old(self)@
                    }),
                decreases m + 1 - k,
            {
                let val = self.v[k];
                self.rpl_flags.set(k, val);
                k = k + 1;
                proof {
                    assert(self@.rpl =~= Seq::new(8, |q: int| if 0 <= q < k {
                        old(self)@.v[q]
                    } else {
                        old(self)@.rpl[q]
                    }));
                    assert(self@ =~= (CpuView {
                        rpl: Seq::new(8, |q: int| if 0 <= q < k {
                            old(self)@.v[q]
                        } else {
                            old(self)@.rpl[q]
                        }),
                        ..old(self)@
                    }));
                }
            }
            self.pc = self.pc.wrapping_add(2);
            proof {
                assert(final(self)@.rpl =~= fx_spec(old(self)@, op).rpl);
                assert(final(self)@ =~= fx_spec(old(self)@, op));
            }
        } else if low == 0x85 {
            let m: usize = if x < 7 { x } else { 7 };
            let mut k: usize = 0;
            while k < m + 1
                invariant
                    wf(old(self)@),
                    k <= m + 1,
                    m < 8,
                    self@ == (CpuView {
                        v: Seq::new(16, |q: int| if 0 <= q < k {
                            old(self)@.rpl[q]
                        } else {
                            old(self)@.v[q]
                        }),
                        ..old(self)@
                    }),
                decreases m + 1 - k,
            {
                let val = self.rpl_flags[k];
                self.v.set(k, val);
                k = k + 1;
                proof {
                    assert(self@.v =~= Seq::new(16, |q: int| if 0 <= q < k {
                        old(self)@.rpl[q]
                    } else {
                        old(self)@.v[q]
                    }));
                    assert(self@ =~= (CpuView {
                        v: Seq::new(16, |q: int| if 0 <= q < k {
                            old(self)@.rpl[q]
                        } else {
                            old(self)@.v[q]
                        }),
                        ..old(self)@
                    }));
                }
            }
            self.pc = self.pc.wrapping_add(2);
            proof {
                assert(final(self)@.v =~= fx_spec(old(self)@, op).v);
                assert(final(self)@ =~= fx_spec(old(self)@, op));
            }
        } else {
            // Unknown FX opcode: report it and skip.
            self.unknown_op = Some(op);
            self.pc = self.pc.wrapping_add(2);
            proof {
                assert(final(self)@ =~= fx_spec(old(self)@, op));
            }
        }
    }

    /// The EX9E / EXA1 key skips.
    fn exec_key(&mut self, op: u16)
        requires
            wf(old(self)@),
            op_fam(op) == 14,
        ensures
            wf(final(self)@),
            final(self)@ == key_spec(old(self)@, op),
    {
        let x = ((op / 256) % 16) as usize;
        let low: u16 = op % 256;
        if low == 0x9E || low == 0xA1 {
            let vx = self.v[x];
            let down = vx < 16 && self.keypad[vx as usize] != 0;
            let skip = if low == 0x9E { down } else { !down };
            self.pc = self.pc.wrapping_add(if skip { 4 } else { 2 });
            proof {
                assert(final(self)@ =~= key_spec(old(self)@, op));
            }
        } else {
            // Unknown key opcode: report it and skip.
            self.unknown_op = Some(op);
            self.pc = self.pc.wrapping_add(2);
            proof {
                assert(final(self)@ =~= key_spec(old(self)@, op));
            }
        }
    }
}

/// One whole fetch-decode-execute step: the opcode under the program counter
/// applied to the state. `r` is the byte the CXNN random-number instruction
/// masks; every other instruction ignores it.
pub open spec fn step_spec(c: CpuView, r: u8) -> CpuView {
    let op = op_at(c);
    let fam = op_fam(op);
    let x = op_x(op);
    let y = op_y(op);
    if fam == 0 {
        sys_spec(c, op)
    } else if fam == 1 {
        CpuView { pc: op_nnn(op), ..c }
    } else if fam == 2 {
        CpuView {
            stack: c.stack.update(c.sp as int, c.pc),
            sp: ((c.sp + 1) % 16) as u16,
            pc: op_nnn(op),
            ..c
        }
    } else if fam == 3 {
        skip_if(c, c.v[x] == op_kk(op))
    } else if fam == 4 {
        skip_if(c, c.v[x] != op_kk(op))
    } else if fam == 5 {
        skip_if(c, c.v[x] == c.v[y])
    } else if fam == 6 {
        adv(CpuView { v: c.v.update(x, op_kk(op)), ..c })
    } else if fam == 7 {
        adv(CpuView { v: c.v.update(x, c.v[x].wrapping_add(op_kk(op))), ..c })
    } else if fam == 8 {
        alu_spec(c, op)
    } else if fam == 9 {
        skip_if(c, c.v[x] != c.v[y])
    } else if fam == 10 {
        adv(CpuView { i: op_nnn(op), ..c })
    } else if fam == 11 {
        CpuView { pc: op_nnn(op).wrapping_add(c.v[0] as u16), ..c }
    } else if fam == 12 {
        adv(CpuView { v: c.v.update(x, r & op_kk(op)), ..c })
    } else if fam == 13 {
        draw_spec(c, op)
    } else if fam == 14 {
        key_spec(c, op)
    } else {
        fx_spec(c, op)
    }
}

/// The state after a burst of `rs.len()` instructions whose random bytes
/// are `rs`, one per step.
pub open spec fn multi_step(c: CpuView, rs: Seq<u8>) -> CpuView
    decreases rs.len(),
{
    if rs.len() == 0 {
        c
    } else {
        multi_step(step_spec(c, rs[0]), rs.drop_first())
    }
}

/// Running a burst and then one more step is the burst extended by that step.
proof fn lemma_multi_step_push(c: CpuView, rs: Seq<u8>, r: u8)
    ensures
        multi_step(c, rs.push(r)) == step_spec(multi_step(c, rs), r),
    decreases rs.len(),
{
    reveal_with_fuel(multi_step, 3);
    if rs.len() == 0 {
        assert(rs.push(r)[0] == r);
        assert(rs.push(r).drop_first() =~= Seq::<u8>::empty());
        assert(multi_step(c, rs.push(r)) == multi_step(
            step_spec(c, r),
            rs.push(r).drop_first(),
        ));
        assert(multi_step(step_spec(c, r), rs.push(r).drop_first()) == step_spec(c, r));
    } else {
        assert(rs.push(r)[0] == rs[0]);
        assert(rs.push(r).drop_first() =~= rs.drop_first().push(r));
        lemma_multi_step_push(step_spec(c, rs[0]), rs.drop_first(), r);
        assert(multi_step(c, rs.push(r)) == multi_step(
            step_spec(c, rs[0]),
            rs.drop_first().push(r),
        ));
        assert(multi_step(c, rs) == multi_step(step_spec(c, rs[0]), rs.drop_first()));
    }
}

impl Cpu {
    /// Fetches and executes one instruction, with `r` standing in for the
    /// random byte that the CXNN instruction masks. The whole transition is
    /// pinned by `step_spec`, so a test can drive the interpreter with a
    /// chosen byte.
    pub fn run_with(&mut self, r: u8)
        requires
            wf(old(self)@),
        ensures
            wf(final(self)@),
            final(self)@ == step_spec(old(self)@, r),
    {
        let pcu = self.pc as usize;
        let hi = self.memory[pcu % 4096];
        let lo = self.memory[(pcu + 1) % 4096];
        let op: u16 = (hi as u16) * 256 + (lo as u16);
        proof {
            assert(op == op_at(self@));
        }
        let fam: u16 = op / 4096;
        let x = ((op / 256) % 16) as usize;
        let y = ((op / 16) % 16) as usize;
        let kk = (op % 256) as u8;
        let nnn: u16 = op % 4096;
        if fam == 0 {
            self.exec_sys(op);
        } else if fam == 1 {
            self.pc = nnn;
            proof {
                assert(final(self)@ =~= step_spec(old(self)@, r));
            }
        } else if fam == 2 {
            let spu = self.sp as usize;
            let pc0 = self.pc;
            self.stack.set(spu, pc0);
            self.sp = (self.sp + 1) % 16;
            self.pc = nnn;
            proof {
                assert(final(self)@ =~= step_spec(old(self)@, r));
            }
        } else if fam == 3 {
            let cond = self.v[x] == kk;
            self.pc = self.pc.wrapping_add(if cond { 4 } else { 2 });
            proof {
                assert(final(self)@ =~= step_spec(old(self)@, r));
            }
        } else if fam == 4 {
            let cond = self.v[x] != kk;
            self.pc = self.pc.wrapping_add(if cond { 4 } else { 2 });
            proof {
                assert(final(self)@ =~= step_spec(old(self)@, r));
            }
        } else if fam == 5 {
            let cond = self.v[x] == self.v[y];
            self.pc = self.pc.wrapping_add(if cond { 4 } else { 2 });
            proof {
                assert(final(self)@ =~= step_spec(old(self)@, r));
            }
        } else if fam == 6 {
            self.v.set(x, kk);
            self.pc = self.pc.wrapping_add(2);
            proof {
                assert(final(self)@ =~= step_spec(old(self)@, r));
            }
        } else if fam == 7 {
            let vx = self.v[x];
            self.v.set(x, vx.wrapping_add(kk));
            self.pc = self.pc.wrapping_add(2);
            proof {
                assert(final(self)@ =~= step_spec(old(self)@, r));
            }
        } else if fam == 8 {
            self.exec_alu(op);
        } else if fam == 9 {
            let cond = self.v[x] != self.v[y];
            self.pc = self.pc.wrapping_add(if cond { 4 } else { 2 });
            proof {
                assert(final(self)@ =~= step_spec(old(self)@, r));
            }
        } else if fam == 10 {
            self.i = nnn;
            self.pc = self.pc.wrapping_add(2);
            proof {
                assert(final(self)@ =~= step_spec(old(self)@, r));
            }
        } else if fam == 11 {
            self.pc = nnn.wrapping_add(self.v[0] as u16);
            proof {
                assert(final(self)@ =~= step_spec(old(self)@, r));
            }
        } else if fam == 12 {
            self.v.set(x, r & kk);
            self.pc = self.pc.wrapping_add(2);
            proof {
                assert(final(self)@ =~= step_spec(old(self)@, r));
            }
        } else if fam == 13 {
            self.exec_draw(op);
        } else if fam == 14 {
            self.exec_key(op);
        } else {
            self.exec_fx(op);
        }
    }

    /// Fetches and executes one instruction, drawing the CXNN byte from the
    /// host's random-number generator: whatever byte came back, the
    /// transition is one `step_spec`.
    pub fn run(&mut self)
        requires
            wf(old(self)@),
        ensures
            wf(final(self)@),
            exists|r: u8| final(self)@ == step_spec(old(self)@, r),
    {
        let r = crate::rng::random_byte();
        self.run_with(r);
    }

    /// Executes a burst of `times` instructions.
    pub fn step(&mut self, times: u8)
        requires
            wf(old(self)@),
        ensures
            wf(final(self)@),
            exists|rs: Seq<u8>|
                rs.len() == times && final(self)@ == multi_step(old(self)@, rs),
    {
        let ghost mut rs: Seq<u8> = Seq::empty();
        let mut k: u8 = 0;
        while k < times
            invariant
                wf(self@),
                k <= times,
                rs.len() == k as nat,
                self@ == multi_step(old(self)@, rs),
            decreases times - k,
        {
            let r = crate::rng::random_byte();
            proof {
                lemma_multi_step_push(old(self)@, rs, r);
            }
            self.run_with(r);
            proof {
                rs = rs.push(r);
            }
            k = k + 1;
        }
    }
}

/// One call on a single timer: accumulate `dt` microseconds of elapsed host
/// time and consume one whole period per decrement while the timer is
/// nonzero. An idle timer accumulates nothing, so the instruction rate and
/// the 60 Hz timer rate stay decoupled.
pub open spec fn timer_step(t: u8, acc: u64, dt: u64) -> (u8, u64) {
    if t == 0 {
        (t, acc)
    } else {
        let total = acc + dt;
        let d = if total / (TICK_MICROS as int) < t {
            total / (TICK_MICROS as int)
        } else {
            t as int
        };
        ((t - d) as u8, (total - d * TICK_MICROS) as u64)
    }
}

/// What `update_timers` does to the whole state.
pub open spec fn timers_spec(c: CpuView, dt: u64) -> CpuView {
    CpuView {
        delay: timer_step(c.delay, c.delay_acc, dt).0,
        delay_acc: timer_step(c.delay, c.delay_acc, dt).1,
        sound: timer_step(c.sound, c.sound_acc, dt).0,
        sound_acc: timer_step(c.sound, c.sound_acc, dt).1,
        ..c
    }
}

/// Advances one timer by `dt` microseconds, decrementing once per full
/// period while the timer is nonzero.
fn tick_down(t: &mut u8, acc: &mut u64, dt: u32)
    requires
        *old(t) > 0 ==> *old(acc) < TICK_MICROS,
    ensures
        *final(t) == timer_step(*old(t), *old(acc), dt as u64).0,
        *final(acc) == timer_step(*old(t), *old(acc), dt as u64).1,
        *final(t) <= *old(t),
        *final(t) > 0 ==> *final(acc) < TICK_MICROS,
{
    if *t > 0 {
        let mut total: u64 = *acc + dt as u64;
        while total >= TICK_MICROS && *t > 0
            invariant
                *t <= *old(t),
                *old(t) > 0,
                total == *old(acc) + dt - (*old(t) - *t) * TICK_MICROS,
            decreases *t,
        {
            *t = *t - 1;
            total = total - TICK_MICROS;
        }
        proof {
            let tot0 = *old(acc) + dt as int;
            let d = *old(t) - *t;
            if *t > 0 {
                lemma_fundamental_div_mod_converse(tot0, TICK_MICROS as int, d, total as int);
            } else {
                lemma_div_by_multiple(*old(t) as int, TICK_MICROS as int);
                lemma_div_is_ordered(
                    (*old(t)) * (TICK_MICROS as int),
                    tot0,
                    TICK_MICROS as int,
                );
            }
        }
        *acc = total;
    }
}

impl Cpu {
    /// Advances both timers by `dt` microseconds of elapsed host time.
    /// Decrements are driven by accumulated time, one per period, so any
    /// split of the same elapsed time gives the same timer values.
    pub fn update_timers(&mut self, dt: u32)
        requires
            wf(old(self)@),
        ensures
            wf(final(self)@),
            final(self)@ == timers_spec(old(self)@, dt as u64),
            final(self)@.delay <= old(self)@.delay,
            final(self)@.sound <= old(self)@.sound,
    {
        tick_down(&mut self.delay_timer, &mut self.tick_acc, dt);
        tick_down(&mut self.sound_timer, &mut self.snd_acc, dt);
        proof {
            assert(self@ =~= timers_spec(old(self)@, dt as u64));
        }
    }
}

/// The 16-bit big-endian opcode at the program counter; instruction fetches
/// wrap at the 4 KiB memory.
pub open spec fn op_at(c: CpuView) -> u16 {
    ((c.mem[(c.pc as int) % 4096] * 256) + c.mem[(c.pc + 1) % 4096]) as u16
}

/// Top nibble: the opcode family.
pub open spec fn op_fam(op: u16) -> int {
    op as int / 4096
}

/// The Vx register selector.
pub open spec fn op_x(op: u16) -> int {
    (op as int / 256) % 16
}

/// The Vy register selector.
pub open spec fn op_y(op: u16) -> int {
    (op as int / 16) % 16
}

/// Bottom nibble: sprite height or sub-opcode.
pub open spec fn op_n(op: u16) -> int {
    op as int % 16
}

/// 8-bit immediate.
pub open spec fn op_kk(op: u16) -> u8 {
    (op % 256) as u8
}

/// 12-bit address.
pub open spec fn op_nnn(op: u16) -> u16 {
    op % 4096
}

/// The program counter advanced past one instruction.
pub open spec fn adv(c: CpuView) -> CpuView {
    CpuView { pc: c.pc.wrapping_add(2), ..c }
}

/// A conditional skip: over the next instruction when `cond` holds, else
/// just past this one.
pub open spec fn skip_if(c: CpuView, cond: bool) -> CpuView {
    CpuView { pc: c.pc.wrapping_add(if cond { 4 } else { 2 }), ..c }
}

/// The frame buffer shifted down by `s` rows; the top `s` rows clear.
pub open spec fn scroll_down_spec(c: CpuView, s: int) -> CpuView {
    adv(CpuView {
        pixels: Seq::new(8192, |p: int| if p / 128 < s {
            false
        } else {
            c.pixels[p - s * 128]
        }),
        draw_flag: true,
        ..c
    })
}

/// The scroll step for the horizontal scrolls: 4 pixels in extended mode,
/// half that in normal mode.
pub open spec fn scroll_step(c: CpuView) -> int {
    if c.extended { 4 } else { 2 }
}

/// The frame buffer shifted right by the scroll step; the left edge clears.
pub open spec fn scroll_right_spec(c: CpuView) -> CpuView {
    let s = scroll_step(c);
    adv(CpuView {
        pixels: Seq::new(8192, |p: int| if p % 128 < s {
            false
        } else {
            c.pixels[p - s]
        }),
        draw_flag: true,
        ..c
    })
}

/// The frame buffer shifted left by the scroll step; the right edge clears.
pub open spec fn scroll_left_spec(c: CpuView) -> CpuView {
    let s = scroll_step(c);
    adv(CpuView {
        pixels: Seq::new(8192, |p: int| if p % 128 >= 128 - s {
            false
        } else {
            c.pixels[p + s]
        }),
        draw_flag: true,
        ..c
    })
}

/// An unrecognized opcode: left for the host to report, then skipped like a
/// no-op, so a partially supported ROM degrades gracefully instead of
/// stalling. The report stays until the host consumes it.
pub open spec fn unknown_spec(c: CpuView, op: u16) -> CpuView {
    CpuView { pc: c.pc.wrapping_add(2), unknown: Some(op), ..c }
}

/// Family 0: clear, return, the SUPER-CHIP scrolls and mode switches.
/// Opcode 0x0000 and unrecognized codes are reported and skipped.
pub open spec fn sys_spec(c: CpuView, op: u16) -> CpuView {
    if (op as int % 256) / 16 == 12 {
        scroll_down_spec(c, if c.extended { op_n(op) } else { op_n(op) / 2 })
    } else {
        let low = op as int % 256;
        if low == 0xE0 {
            adv(CpuView { pixels: Seq::new(8192, |p: int| false), draw_flag: true, ..c })
        } else if low == 0xEE {
            let nsp = ((c.sp + 15) % 16) as u16;
            CpuView { sp: nsp, pc: c.stack[nsp as int].wrapping_add(2), ..c }
        } else if low == 0xFB {
            scroll_right_spec(c)
        } else if low == 0xFC {
            scroll_left_spec(c)
        } else if low == 0xFD {
            reset_spec(c)
        } else if low == 0xFE {
            adv(CpuView { extended: false, ..c })
        } else if low == 0xFF {
            adv(CpuView { extended: true, ..c })
        } else {
            unknown_spec(c, op)
        }
    }
}

/// The register ALU family 8XYN.
pub open spec fn alu_spec(c: CpuView, op: u16) -> CpuView {
    let x = op_x(op);
    let y = op_y(op);
    let n = op_n(op);
    if n == 0 {
        adv(CpuView { v: c.v.update(x, c.v[y]), ..c })
    } else if n == 1 {
        adv(CpuView { v: c.v.update(x, c.v[x] | c.v[y]), ..c })
    } else if n == 2 {
        adv(CpuView { v: c.v.update(x, c.v[x] & c.v[y]), ..c })
    } else if n == 3 {
        adv(CpuView { v: c.v.update(x, c.v[x] ^ c.v[y]), ..c })
    } else if n == 4 {
        let sum = c.v[x] + c.v[y];
        adv(CpuView {
            v: c.v.update(x, (sum % 256) as u8).update(15, if sum > 255 { 1u8 } else { 0u8 }),
            ..c
        })
    } else if n == 5 {
        adv(CpuView {
            v: c.v.update(x, c.v[x].wrapping_sub(c.v[y])).update(
                15,
                if c.v[y] > c.v[x] { 0u8 } else { 1u8 },
            ),
            ..c
        })
    } else if n == 6 {
        let v1 = c.v.update(15, c.v[x] & 1);
        adv(CpuView { v: v1.update(x, v1[x] >> 1u8), ..c })
    } else if n == 7 {
        adv(CpuView {
            v: c.v.update(x, c.v[y].wrapping_sub(c.v[x])).update(
                15,
                if c.v[x] > c.v[y] { 0u8 } else { 1u8 },
            ),
            ..c
        })
    } else if n == 14 {
        let v1 = c.v.update(15, (c.v[x] >> 7u8) & 1);
        adv(CpuView { v: v1.update(x, v1[x] << 1u8), ..c })
    } else {
        unknown_spec(c, op)
    }
}

/// The width in pixels of the screen area draws wrap around in.
pub open spec fn act_w(c: CpuView) -> int {
    if c.extended { 128 } else { 64 }
}

/// The height in pixels of the screen area draws wrap around in.
pub open spec fn act_h(c: CpuView) -> int {
    if c.extended { 64 } else { 32 }
}

/// Sprite width: the zero-height form draws a 16x16 sprite in extended mode,
/// everything else is 8 pixels wide.
pub open spec fn spr_w(c: CpuView, op: u16) -> int {
    if op_n(op) == 0 && c.extended { 16 } else { 8 }
}

/// Sprite height: the opcode's bottom nibble, or 16 for the extended 16x16
/// form.
pub open spec fn spr_h(c: CpuView, op: u16) -> int {
    if op_n(op) == 0 && c.extended { 16 } else { op_n(op) }
}

/// Row `j` of the sprite, leftmost pixel in the highest bit. A wide sprite
/// reads two bytes per row from `I + 2j`, a plain one reads one from `I + j`.
pub open spec fn spr_row(c: CpuView, op: u16, j: int) -> u16 {
    if spr_w(c, op) == 16 {
        ((c.mem[(c.i + 2 * j) % 4096] * 256) + c.mem[(c.i + 2 * j + 1) % 4096]) as u16
    } else {
        c.mem[(c.i + j) % 4096] as u16
    }
}

/// Whether sprite cell (row `j`, column `k`) is set.
pub open spec fn spr_bit(c: CpuView, op: u16, j: int, k: int) -> bool {
    (spr_row(c, op, j) >> ((spr_w(c, op) - 1 - k) as u16)) & 1 == 1
}

/// The frame-buffer index sprite cell (row `j`, column `k`) lands on:
/// coordinates wrap toroidally at the active screen size.
pub open spec fn tgt_idx(c: CpuView, op: u16, j: int, k: int) -> int {
    ((c.v[op_y(op)] + j) % act_h(c)) * 128 + ((c.v[op_x(op)] + k) % act_w(c))
}

/// Whether the draw of `op` flips pixel `p`: some set sprite cell lands there.
pub open spec fn draw_hit(c: CpuView, op: u16, p: int) -> bool {
    exists|j: int, k: int|
        0 <= j < spr_h(c, op) && 0 <= k < spr_w(c, op) && #[trigger] spr_bit(c, op, j, k)
            && p == tgt_idx(c, op, j, k)
}

/// Whether the draw collides: some set sprite cell lands on a lit pixel.
pub open spec fn draw_collide(c: CpuView, op: u16) -> bool {
    exists|j: int, k: int|
        0 <= j < spr_h(c, op) && 0 <= k < spr_w(c, op) && #[trigger] spr_bit(c, op, j, k)
            && c.pixels[tgt_idx(c, op, j, k)]
}

/// The DXYN sprite draw: set sprite cells are XORed into the frame buffer,
/// VF reports whether any lit pixel was toggled off, and the dirty flag is
/// raised.
pub open spec fn draw_spec(c: CpuView, op: u16) -> CpuView {
    adv(CpuView {
        pixels: Seq::new(8192, |p: int| c.pixels[p] != draw_hit(c, op, p)),
        v: c.v.update(15, if draw_collide(c, op) { 1u8 } else { 0u8 }),
        draw_flag: true,
        ..c
    })
}

/// Whether some sprite cell lexicographically before (row `jb`, column `kb`)
/// is set and lands on pixel `p`.
spec fn hit_before(c: CpuView, op: u16, jb: int, kb: int, p: int) -> bool {
    exists|j: int, k: int|
        0 <= j < spr_h(c, op) && 0 <= k < spr_w(c, op) && (j < jb || (j == jb && k < kb))
            && #[trigger] spr_bit(c, op, j, k) && p == tgt_idx(c, op, j, k)
}

/// Whether some sprite cell lexicographically before (row `jb`, column `kb`)
/// is set and lands on a lit pixel of `c`.
spec fn col_before(c: CpuView, op: u16, jb: int, kb: int) -> bool {
    exists|j: int, k: int|
        0 <= j < spr_h(c, op) && 0 <= k < spr_w(c, op) && (j < jb || (j == jb && k < kb))
            && #[trigger] spr_bit(c, op, j, k) && c.pixels[tgt_idx(c, op, j, k)]
}

/// Adding the same offset to two in-range amounts keeps them apart modulo m.
proof fn lemma_mod_shift_inj(a: int, j1: int, j2: int, m: int)
    requires
        0 <= a,
        0 <= j1 < m,
        0 <= j2 < m,
        (a + j1) % m == (a + j2) % m,
    ensures
        j1 == j2,
{
    lemma_fundamental_div_mod(a + j1, m);
    lemma_fundamental_div_mod(a + j2, m);
    let q1 = (a + j1) / m;
    let q2 = (a + j2) / m;
    assert(j1 - j2 == (q1 - q2) * m) by (nonlinear_arith)
        requires
            a + j1 == m * q1 + (a + j1) % m,
            a + j2 == m * q2 + (a + j2) % m,
            (a + j1) % m == (a + j2) % m,
    ;
    if q1 != q2 {
        assert((q1 - q2) * m >= m || (q1 - q2) * m <= -m) by (nonlinear_arith)
            requires
                q1 != q2,
                m > 0,
        ;
    }
}

/// Distinct sprite cells land on distinct frame-buffer pixels: rows differ
/// by less than the active height and columns by less than the active width,
/// so the toroidal wrap cannot identify two cells.
proof fn lemma_tgt_inj(c: CpuView, op: u16, j1: int, k1: int, j2: int, k2: int)
    requires
        wf(c),
        0 <= j1 < spr_h(c, op),
        0 <= k1 < spr_w(c, op),
        0 <= j2 < spr_h(c, op),
        0 <= k2 < spr_w(c, op),
        tgt_idx(c, op, j1, k1) == tgt_idx(c, op, j2, k2),
    ensures
        j1 == j2 && k1 == k2,
{
    let sy = c.v[op_y(op)] as int;
    let sx = c.v[op_x(op)] as int;
    let ya = (sy + j1) % act_h(c);
    let yb = (sy + j2) % act_h(c);
    let xa = (sx + k1) % act_w(c);
    let xb = (sx + k2) % act_w(c);
    lemma_mod_bound(sy + j1, act_h(c));
    lemma_mod_bound(sy + j2, act_h(c));
    lemma_mod_bound(sx + k1, act_w(c));
    lemma_mod_bound(sx + k2, act_w(c));
    assert(ya == yb && xa == xb);
    lemma_mod_shift_inj(sy, j1, j2, act_h(c));
    lemma_mod_shift_inj(sx, k1, k2, act_w(c));
}

/// Crossing a row boundary leaves the prefix predicates unchanged: the cells
/// before (j + 1, 0) are exactly those before (j, width).
proof fn lemma_prefix_row_boundary(c: CpuView, op: u16, j: int)
    ensures
        forall|p: int| #[trigger] hit_before(c, op, j + 1, 0, p) == hit_before(
            c,
            op,
            j,
            spr_w(c, op),
            p,
        ),
        col_before(c, op, j + 1, 0) == col_before(c, op, j, spr_w(c, op)),
{
    let w = spr_w(c, op);
    let h = spr_h(c, op);
    assert forall|p: int| #[trigger] hit_before(c, op, j + 1, 0, p) implies hit_before(
        c,
        op,
        j,
        w,
        p,
    ) by {
        let (a, b) = choose|a: int, b: int|
            0 <= a < h && 0 <= b < w && (a < j + 1 || (a == j + 1 && b < 0))
                && #[trigger] spr_bit(c, op, a, b) && p == tgt_idx(c, op, a, b);
        assert(a < j || (a == j && b < w));
        assert(hit_before(c, op, j, w, p));
    };
    assert forall|p: int| hit_before(c, op, j, w, p) implies #[trigger] hit_before(
        c,
        op,
        j + 1,
        0,
        p,
    ) by {
        let (a, b) = choose|a: int, b: int|
            0 <= a < h && 0 <= b < w && (a < j || (a == j && b < w))
                && #[trigger] spr_bit(c, op, a, b) && p == tgt_idx(c, op, a, b);
        assert(a < j + 1);
        assert(hit_before(c, op, j + 1, 0, p));
    };
    if col_before(c, op, j + 1, 0) {
        let (a, b) = choose|a: int, b: int|
            0 <= a < h && 0 <= b < w && (a < j + 1 || (a == j + 1 && b < 0))
                && #[trigger] spr_bit(c, op, a, b) && c.pixels[tgt_idx(c, op, a, b)];
        assert(a < j || (a == j && b < w));
        assert(col_before(c, op, j, w));
    }
    if col_before(c, op, j, w) {
        let (a, b) = choose|a: int, b: int|
            0 <= a < h && 0 <= b < w && (a < j || (a == j && b < w))
                && #[trigger] spr_bit(c, op, a, b) && c.pixels[tgt_idx(c, op, a, b)];
        assert(a < j + 1);
        assert(col_before(c, op, j + 1, 0));
    }
}

/// With every row processed the prefix predicates say exactly what the draw
/// predicates say.
proof fn lemma_prefix_full(c: CpuView, op: u16)
    ensures
        forall|p: int| #[trigger] hit_before(c, op, spr_h(c, op), 0, p) == draw_hit(c, op, p),
        col_before(c, op, spr_h(c, op), 0) == draw_collide(c, op),
{
    let w = spr_w(c, op);
    let h = spr_h(c, op);
    assert forall|p: int| #[trigger] hit_before(c, op, h, 0, p) implies draw_hit(c, op, p) by {
        let (a, b) = choose|a: int, b: int|
            0 <= a < h && 0 <= b < w && (a < h || (a == h && b < 0))
                && #[trigger] spr_bit(c, op, a, b) && p == tgt_idx(c, op, a, b);
        assert(draw_hit(c, op, p));
    };
    assert forall|p: int| draw_hit(c, op, p) implies #[trigger] hit_before(c, op, h, 0, p) by {
        let (a, b) = choose|a: int, b: int|
            0 <= a < h && 0 <= b < w && #[trigger] spr_bit(c, op, a, b) && p == tgt_idx(
                c,
                op,
                a,
                b,
            );
        assert(hit_before(c, op, h, 0, p));
    };
    if col_before(c, op, h, 0) {
        let (a, b) = choose|a: int, b: int|
            0 <= a < h && 0 <= b < w && (a < h || (a == h && b < 0))
                && #[trigger] spr_bit(c, op, a, b) && c.pixels[tgt_idx(c, op, a, b)];
        assert(draw_collide(c, op));
    }
    if draw_collide(c, op) {
        let (a, b) = choose|a: int, b: int|
            0 <= a < h && 0 <= b < w && #[trigger] spr_bit(c, op, a, b)
                && c.pixels[tgt_idx(c, op, a, b)];
        assert(col_before(c, op, h, 0));
    }
}

/// Memory after the first `cnt` of the registers V0.. have been stored one
/// byte each from address `i` on, addresses wrapping at 4 KiB.
pub open spec fn store_regs(mem: Seq<u8>, v: Seq<u8>, i: int, cnt: int) -> Seq<u8>
    decreases cnt,
{
    if cnt <= 0 {
        mem
    } else {
        store_regs(mem, v, i, cnt - 1).update((i + cnt - 1) % 4096, v[cnt - 1])
    }
}

/// The lowest-indexed pressed key at or above index `k`, if any.
pub open spec fn first_key_from(kp: Seq<u8>, k: int) -> Option<u8>
    decreases 16 - k,
{
    if k < 0 || k >= 16 {
        None
    } else if kp[k] != 0 {
        Some(k as u8)
    } else {
        first_key_from(kp, k + 1)
    }
}

/// The FX family: timers, key wait, index arithmetic, font lookup, BCD and
/// the register block transfers. FX0A leaves the state unchanged while no
/// key is down, so the same instruction is fetched again on the next step.
/// Two historically divergent behaviors are pinned here: FX1E sets VF on
/// 12-bit overflow of I, and FX55/FX65 leave I unchanged afterwards.
pub open spec fn fx_spec(c: CpuView, op: u16) -> CpuView {
    let x = op_x(op);
    let low = op as int % 256;
    if low == 0x07 {
        adv(CpuView { v: c.v.update(x, c.delay), ..c })
    } else if low == 0x0A {
        match first_key_from(c.keypad, 0) {
            Some(k) => adv(CpuView { v: c.v.update(x, k), ..c }),
            None => c,
        }
    } else if low == 0x15 {
        adv(CpuView { delay: c.v[x], delay_acc: 0, ..c })
    } else if low == 0x18 {
        adv(CpuView { sound: c.v[x], sound_acc: 0, ..c })
    } else if low == 0x1E {
        let ni = c.i.wrapping_add(c.v[x] as u16);
        adv(CpuView { i: ni, v: c.v.update(15, if ni > 0xFFF { 1u8 } else { 0u8 }), ..c })
    } else if low == 0x29 {
        adv(CpuView { i: (c.v[x] * 5) as u16, ..c })
    } else if low == 0x30 {
        adv(CpuView { i: (c.v[x] * 10 + 80) as u16, ..c })
    } else if low == 0x33 {
        adv(CpuView {
            mem: c.mem.update((c.i as int) % 4096, (c.v[x] as int / 100) as u8).update(
                (c.i + 1) % 4096,
                ((c.v[x] as int % 100) / 10) as u8,
            ).update((c.i + 2) % 4096, (c.v[x] as int % 10) as u8),
            ..c
        })
    } else if low == 0x55 {
        adv(CpuView { mem: store_regs(c.mem, c.v, c.i as int, op_x(op) + 1), ..c })
    } else if low == 0x65 {
        adv(CpuView {
            v: Seq::new(16, |k: int| if 0 <= k <= x {
                c.mem[(c.i + k) % 4096]
            } else {
                c.v[k]
            }),
            ..c
        })
    } else if low == 0x75 {
        let m = if x < 7 { x } else { 7 };
        adv(CpuView {
            rpl: Seq::new(8, |k: int| if 0 <= k <= m {
                c.v[k]
            } else {
                c.rpl[k]
            }),
            ..c
        })
    } else if low == 0x85 {
        let m = if x < 7 { x } else { 7 };
        adv(CpuView {
            v: Seq::new(16, |k: int| if 0 <= k <= m {
                c.rpl[k]
            } else {
                c.v[k]
            }),
            ..c
        })
    } else {
        unknown_spec(c, op)
    }
}

/// Whether the key named by Vx counts as pressed in the current snapshot.
/// A register value outside the 16 keys names no key.
pub open spec fn key_down(c: CpuView, x: int) -> bool {
    c.v[x] < 16 && c.keypad[c.v[x] as int] != 0
}

/// The key-skip family EX9E / EXA1.
pub open spec fn key_spec(c: CpuView, op: u16) -> CpuView {
    let low = op % 256;
    if low == 0x9E {
        skip_if(c, key_down(c, op_x(op)))
    } else if low == 0xA1 {
        skip_if(c, !key_down(c, op_x(op)))
    } else {
        unknown_spec(c, op)
    }
}

impl Cpu {
    /// The program counter.
    pub fn pc(&self) -> (r: u16)
        ensures
            r == self@.pc,
    {
        self.pc
    }

    /// The index register I.
    pub fn i_reg(&self) -> (r: u16)
        ensures
            r == self@.i,
    {
        self.i
    }

    /// The stack pointer.
    pub fn sp(&self) -> (r: u16)
        ensures
            r == self@.sp,
    {
        self.sp
    }

    /// General-purpose register Vx.
    pub fn v_reg(&self, x: usize) -> (r: u8)
        requires
            wf(self@),
            x < 16,
        ensures
            r == self@.v[x as int],
    {
        self.v[x]
    }

    /// The delay timer.
    pub fn delay_timer(&self) -> (r: u8)
        ensures
            r == self@.delay,
    {
        self.delay_timer
    }

    /// The sound timer.
    pub fn sound_timer(&self) -> (r: u8)
        ensures
            r == self@.sound,
    {
        self.sound_timer
    }

    /// Whether the beeper should sound: the sound timer is running.
    pub fn sound_on(&self) -> (r: bool)
        ensures
            r == (self@.sound > 0),
    {
        self.sound_timer > 0
    }

    /// The memory byte at `a`.
    pub fn mem_byte(&self, a: usize) -> (r: u8)
        requires
            wf(self@),
            a < 4096,
        ensures
            r == self@.mem[a as int],
    {
        self.memory[a]
    }

    /// The pixel at column `px`, row `py` of the frame buffer.
    pub fn pixel(&self, px: usize, py: usize) -> (r: bool)
        requires
            wf(self@),
            px < 128,
            py < 64,
        ensures
            r == self@.pixels[py * 128 + px],
    {
        self.pixels[py * 128 + px]
    }

    /// Whether the host needs to repaint.
    pub fn draw_flag(&self) -> (r: bool)
        ensures
            r == self@.draw_flag,
    {
        self.draw_flag
    }

    /// Consumes the repaint signal after the host has drawn the frame.
    pub fn clear_draw_flag(&mut self)
        ensures
            final(self)@ == (CpuView { draw_flag: false, ..old(self)@ }),
    {
        self.draw_flag = false;
        proof {
            assert(final(self)@ =~= (CpuView { draw_flag: false, ..old(self)@ }));
        }
    }

    /// The last opcode the interpreter did not recognize, if the host has
    /// not consumed the report yet. Execution went on past it regardless.
    pub fn unknown_op(&self) -> (r: Option<u16>)
        ensures
            r == self@.unknown,
    {
        self.unknown_op
    }

    /// Consumes the unknown-opcode report after the host has logged it.
    pub fn clear_unknown_op(&mut self)
        ensures
            final(self)@ == (CpuView { unknown: None, ..old(self)@ }),
    {
        self.unknown_op = None;
        proof {
            assert(final(self)@ =~= (CpuView { unknown: None, ..old(self)@ }));
        }
    }

    /// Overwrites one key of the keypad snapshot the host polls for.
    pub fn set_key(&mut self, k: usize, pressed: bool)
        requires
            wf(old(self)@),
            k < 16,
        ensures
            wf(final(self)@),
            final(self)@ == (CpuView {
                keypad: old(self)@.keypad.update(k as int, if pressed { 1u8 } else { 0u8 }),
                ..old(self)@
            }),
    {
        self.keypad.set(k, if pressed { 1 } else { 0 });
        proof {
            assert(final(self)@ =~= (CpuView {
                keypad: old(self)@.keypad.update(k as int, if pressed { 1u8 } else { 0u8 }),
                ..old(self)@
            }));
        }
    }
}

/// What `reset` leaves behind.
pub open spec fn reset_spec(c: CpuView) -> CpuView {
    CpuView {
        v: Seq::new(16, |k: int| 0u8),
        i: 0,
        pc: 0x200,
        sp: 0,
        delay: 0,
        sound: 0,
        delay_acc: 0,
        sound_acc: 0,
        pixels: Seq::new(8192, |k: int| false),
        draw_flag: true,
        unknown: None,
        ..c
    }
}

} // verus!
