use chip8::cpu::{Cpu, TICK_MICROS};

fn boot(rom: Vec<u8>) -> Cpu {
    let mut cpu = Cpu::new();
    assert!(matches!(cpu.load_bin(&rom), Ok(())));
    cpu
}

fn with_delay_5() -> Cpu {
    let mut cpu = boot(vec![0x60, 0x05, 0xF0, 0x15]);
    cpu.run_with(0);
    cpu.run_with(0);
    assert_eq!(cpu.delay_timer(), 5);
    cpu
}

#[test]
fn timer_drains_exactly_over_split_calls() {
    let mut cpu = with_delay_5();
    let total = 5 * TICK_MICROS as u32;
    let parts = vec![10_000, 10_000, 10_000, 10_000, 10_000, total - 50_000];
    assert_eq!(parts.iter().sum::<u32>(), total);
    let mut last = cpu.delay_timer();
    for dt in parts {
        cpu.update_timers(dt);
        let now = cpu.delay_timer();
        assert!(now <= last);
        last = now;
    }
    assert_eq!(cpu.delay_timer(), 0);
}

#[test]
fn timer_drains_exactly_in_one_call() {
    let mut cpu = with_delay_5();
    cpu.update_timers(5 * TICK_MICROS as u32);
    assert_eq!(cpu.delay_timer(), 0);
}

#[test]
fn timer_drains_one_tick_per_period() {
    let mut cpu = with_delay_5();
    cpu.update_timers(TICK_MICROS as u32);
    assert_eq!(cpu.delay_timer(), 4);
    cpu.update_timers(TICK_MICROS as u32);
    assert_eq!(cpu.delay_timer(), 3);
}

#[test]
fn timer_partial_period_does_not_decrement() {
    let mut cpu = with_delay_5();
    cpu.update_timers(TICK_MICROS as u32 / 2);
    assert_eq!(cpu.delay_timer(), 5);
    cpu.update_timers(TICK_MICROS as u32 / 2 + 1);
    assert_eq!(cpu.delay_timer(), 4);
}

#[test]
fn idle_timer_accumulates_nothing() {
    let mut cpu = boot(vec![0x60, 0x05, 0xF0, 0x15]);
    cpu.update_timers(1_000_000);
    cpu.run_with(0);
    cpu.run_with(0);
    assert_eq!(cpu.delay_timer(), 5);
    // The idle-time microseconds were not banked while the timer was zero.
    cpu.update_timers(TICK_MICROS as u32 - 1);
    assert_eq!(cpu.delay_timer(), 5);
}

#[test]
fn timer_stops_at_zero() {
    let mut cpu = with_delay_5();
    cpu.update_timers(100 * TICK_MICROS as u32);
    assert_eq!(cpu.delay_timer(), 0);
    cpu.update_timers(100 * TICK_MICROS as u32);
    assert_eq!(cpu.delay_timer(), 0);
}

#[test]
fn sound_timer_runs_and_signals() {
    let mut cpu = boot(vec![0x60, 0x02, 0xF0, 0x18]);
    cpu.run_with(0);
    cpu.run_with(0);
    assert_eq!(cpu.sound_timer(), 2);
    assert!(cpu.sound_on());
    cpu.update_timers(2 * TICK_MICROS as u32);
    assert_eq!(cpu.sound_timer(), 0);
    assert!(!cpu.sound_on());
}

#[test]
fn delay_timer_reads_back() {
    let mut cpu = boot(vec![0x60, 0x07, 0xF0, 0x15, 0xF1, 0x07]);
    cpu.run_with(0);
    cpu.run_with(0);
    cpu.run_with(0);
    assert_eq!(cpu.v_reg(1), 7);
}
