use seqpool::chain::NULL;
use seqpool::fallback;
use seqpool::registration::{
    release, rseq, rseq_init, rseq_registered, thread_plus_offset, unregistered_area, InitStep,
    RseqLookup, RseqThread,
};
use seqpool::rseq::{
    cpu_id, enter_section, head_offset, head_shift, head_stride, is_available, per_cpu_pop,
    per_cpu_push, possible_cpus, section_retry, CpuHead, Rseq, SECTION_LOOKS,
};

fn area_on(cpu: u32) -> Option<Rseq> {
    Some(Rseq { cpu_id_start: cpu, cpu_id: cpu, rseq_cs: 0, flags: 0 })
}

fn looks_on(cpu: u32) -> Option<[Rseq; SECTION_LOOKS]> {
    area_on(cpu).map(|area| [area; SECTION_LOOKS])
}

/// An area whose thread leaves the CPU in the middle of the section.
fn leaving(cpu: u32) -> Rseq {
    Rseq { cpu_id_start: cpu, cpu_id: cpu + 1, rseq_cs: 0, flags: 0 }
}

fn heads(values: &[u32]) -> Vec<CpuHead> {
    values.iter().map(|v| CpuHead::new(*v)).collect()
}

fn values(heads: &[CpuHead]) -> Vec<u32> {
    heads.iter().map(|head| **head).collect()
}

/// The kernel's list, and the areas and tickets that threads may have with it.
const LIST: &str = "0-7\n";

#[test]
fn cpu_id_in_range() {
    let cpus = possible_cpus(Some(LIST), Some(8));
    assert!(cpus >= 1);
    for cpu in 0..8u32 {
        let id = cpu_id(area_on(cpu), fallback::cpu_id(cpu as usize, cpus));
        assert!(id < cpus, "cpu_id {id} >= possible_cpus {cpus}");
    }
}

#[test]
fn cpu_id_consistent_on_fallback() {
    let cpus = possible_cpus(Some(LIST), Some(8));
    for area in [None, Some(unregistered_area())] {
        let mine = fallback::cpu_id(11, cpus);
        if !is_available(area) {
            let id1 = cpu_id(area, mine);
            let id2 = cpu_id(area, mine);
            assert_eq!(id1, id2);
            assert_eq!(id1, 3);
        } else {
            panic!("no area of these is registered");
        }
    }
}

#[test]
fn cpu_id_across_threads() {
    let cpus = possible_cpus(Some(LIST), Some(8));
    let mut results: Vec<usize> = Vec::new();

    for ticket in 0..cpus.min(8) {
        let id = cpu_id(None, fallback::cpu_id(ticket, cpus));
        assert!(id < cpus);
        results.push(id);
    }

    assert_eq!(results.len(), cpus.min(8));
}

#[test]
fn possible_cpus_reasonable() {
    let cpus = possible_cpus(Some(LIST), Some(8));
    assert!(cpus >= 1);
    assert!(cpus <= 1024);
    let cpus = possible_cpus(None, None);
    assert!(cpus >= 1);
    assert!(cpus <= 1024);
}

#[test]
fn head_stride_is_cache_line() {
    // CachePadded should give us at least 64 bytes
    assert!(head_stride() >= 64);
    assert!(head_stride().is_power_of_two());
}

#[test]
fn possible_cpus_reads_the_list() {
    assert_eq!(possible_cpus(Some("0-7\n"), None), 8);
    assert_eq!(possible_cpus(Some("0"), None), 1);
    assert_eq!(possible_cpus(Some("0-3,8-11\n"), None), 12);
    assert_eq!(possible_cpus(Some("8-11,0-3"), None), 12);
    assert_eq!(possible_cpus(Some("0,2,5"), None), 6);
    assert_eq!(possible_cpus(Some("\u{a0} 0-1 \t\r\n"), None), 2);
    // The list wins over what the system reports.
    assert_eq!(possible_cpus(Some("0-1"), Some(64)), 2);
    assert_eq!(possible_cpus(None, Some(64)), 64);
    assert_eq!(possible_cpus(None, None), 4);
}

#[test]
fn possible_cpus_takes_what_is_no_number_for_zero() {
    assert_eq!(possible_cpus(Some(""), None), 1);
    assert_eq!(possible_cpus(Some("x-y,,3"), None), 4);
    assert_eq!(possible_cpus(Some("0-"), None), 1);
    assert_eq!(possible_cpus(Some("0--5"), None), 1);
    assert_eq!(possible_cpus(Some("+5"), None), 6);
    assert_eq!(possible_cpus(Some("+"), None), 1);
    assert_eq!(possible_cpus(Some("3 ,1"), None), 2);
    assert_eq!(possible_cpus(Some("99999999999999999999999,2"), None), 3);
    assert_eq!(possible_cpus(Some("00000000000000000000000007"), None), 8);
}

#[test]
fn fallback_deals_threads_out() {
    assert_eq!(fallback::cpu_id(0, 4), 0);
    assert_eq!(fallback::cpu_id(5, 4), 1);
    assert_eq!(fallback::possible_cpus(Some(3)), 3);
    assert_eq!(fallback::possible_cpus(None), 4);
}

#[test]
fn section_pop_and_push() {
    let mut h = heads(&[NULL, 2]);
    let mut next = vec![NULL, NULL, 0, NULL];

    assert_eq!(per_cpu_pop(looks_on(1), 0, &mut h, &next), Ok((2, 1)));
    assert_eq!(values(&h), vec![NULL, 0]);
    assert_eq!(per_cpu_push(looks_on(1), 0, &mut h, &mut next, 2), Ok(1));
    assert_eq!(values(&h), vec![NULL, 2]);
    assert_eq!(next, vec![NULL, NULL, 0, NULL]);

    // An empty list
    assert_eq!(per_cpu_pop(looks_on(0), 1, &mut h, &next), Err(0));
    assert_eq!(per_cpu_push(looks_on(0), 1, &mut h, &mut next, 3), Ok(0));
    assert_eq!(values(&h), vec![3, 2]);
    assert_eq!(next[3], NULL);
}

#[test]
fn section_fails_without_the_cpu() {
    let mut h = heads(&[1, 2]);
    let mut next = vec![NULL; 4];

    // No area
    assert_eq!(per_cpu_pop(None, 1, &mut h, &next), Err(1));
    assert_eq!(per_cpu_push(None, 1, &mut h, &mut next, 3), Err(1));
    // No head for that CPU
    assert_eq!(per_cpu_pop(looks_on(2), 1, &mut h, &next), Err(2));
    assert_eq!(per_cpu_push(looks_on(2), 1, &mut h, &mut next, 3), Err(2));
    // Migrated each time
    let moved = Some([leaving(0); SECTION_LOOKS]);
    assert_eq!(per_cpu_pop(moved, 1, &mut h, &next), Err(0));
    assert_eq!(per_cpu_push(moved, 1, &mut h, &mut next, 3), Err(0));
    assert_eq!(enter_section(moved, 1, 2), Err(0));
    assert_eq!(enter_section(looks_on(1), 0, 2), Ok(1));

    assert_eq!(values(&h), vec![1, 2]);
    assert_eq!(next, vec![NULL; 4]);
}

#[test]
fn section_is_restarted() {
    let staying = area_on(1).unwrap();
    for restarts in 0..SECTION_LOOKS {
        let mut looks = [staying; SECTION_LOOKS];
        for look in looks.iter_mut().take(restarts) {
            *look = leaving(0);
        }
        // Given up at the last look, which still tells the CPU
        let expected = if restarts < 4 { Ok(1) } else { Err(1) };
        assert_eq!(enter_section(Some(looks), 0, 2), expected);
    }
    // A CPU without a head ends it at once.
    let mut looks = [staying; SECTION_LOOKS];
    looks[0] = leaving(0);
    looks[1] = area_on(9).unwrap();
    assert_eq!(enter_section(Some(looks), 0, 2), Err(9));

    let mut h = heads(&[3, 2]);
    let next = vec![NULL; 4];
    looks[1] = staying;
    assert_eq!(per_cpu_pop(Some(looks), 0, &mut h, &next), Ok((2, 1)));
    assert_eq!(values(&h), vec![3, NULL]);
}

#[test]
fn retries_run_out() {
    assert_eq!(SECTION_LOOKS, 5);
    assert_eq!(section_retry(5), Some(4));
    assert_eq!(section_retry(2), Some(1));
    assert_eq!(section_retry(1), None);
    assert_eq!(section_retry(0), None);
}

#[test]
fn shift_finds_the_head() {
    assert_eq!(head_stride(), std::mem::size_of::<CpuHead>());
    assert_eq!(1usize << head_shift(), head_stride());
    for cpu in 0..7usize {
        assert_eq!(head_offset(cpu), cpu * std::mem::size_of::<CpuHead>());
        assert_eq!(cpu << head_shift(), head_offset(cpu));
    }
}

#[test]
fn availability() {
    assert!(is_available(area_on(3)));
    assert!(!is_available(None));
    assert!(!is_available(Some(unregistered_area())));
    assert_eq!(cpu_id(Some(unregistered_area()), 5), 5);
    assert_eq!(cpu_id(area_on(3), 5), 3);
}

#[test]
fn libc_area_is_adopted() {
    let mut thread = RseqThread::new();
    assert!(matches!(rseq(&thread, false), RseqLookup::MustInit));
    assert!(matches!(rseq_init(&mut thread, Some(640), 32), InitStep::Adopted(640)));
    assert!(matches!(rseq(&thread, true), RseqLookup::Ready(640)));
    assert_eq!(release(&mut thread), None);
    assert!(matches!(rseq(&thread, true), RseqLookup::Unavailable));
}

#[test]
fn own_area_is_registered_and_released_once() {
    let mut thread = RseqThread::new();
    assert!(matches!(rseq_init(&mut thread, Some(0), 32), InitStep::Register(32)));
    assert_eq!(rseq_registered(&mut thread, true), Some(32));
    assert!(matches!(rseq(&thread, false), RseqLookup::Ready(32)));
    assert_eq!(release(&mut thread), Some(32));
    assert_eq!(release(&mut thread), None);
}

#[test]
fn refused_area_is_not_released() {
    let mut thread = RseqThread::new();
    assert!(matches!(rseq_init(&mut thread, None, 32), InitStep::Register(32)));
    assert_eq!(rseq_registered(&mut thread, false), None);
    assert_eq!(release(&mut thread), None);
}

#[test]
fn offsets_from_the_thread_pointer() {
    assert_eq!(thread_plus_offset(4096, 32), 4128);
    assert_eq!(thread_plus_offset(4096, -96), 4000);
    assert_eq!(thread_plus_offset(10, -11), usize::MAX);
    assert_eq!(thread_plus_offset(usize::MAX, 2), 1);
}
