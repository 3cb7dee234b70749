use hack_rs::memory_lab::arena::{align_up, BumpArena};
use hack_rs::memory_lab::access::{
    build_list, list_sum, make_shuffled_indexes, random_index_sum, sequential_sum,
    stride_indexes, strided_sum, strided_sum_fixed_visits,
};
use hack_rs::memory_lab::command::{parse_command, Command};
use hack_rs::memory_lab::format::{dump_bytes, format_bits_u8, layout_report};
use hack_rs::memory_lab::machine::{TinyCpu, TinyRam};
use hack_rs::memory_lab::status::rss_kb_from_status;

#[test]
fn parse_day_accepts_named_days_and_all() {
    assert_eq!(parse_command(&["memory_lab", "day01"]), Command::RunDay(1));
    assert_eq!(parse_command(&["memory_lab", "day30"]), Command::RunDay(30));
    assert_eq!(parse_command(&["memory_lab", "all"]), Command::RunAll);
}

#[test]
fn parse_day_rejects_out_of_range_days() {
    assert_eq!(parse_command(&["memory_lab", "day00"]), Command::Help);
    assert_eq!(parse_command(&["memory_lab", "day31"]), Command::Help);
    assert_eq!(parse_command(&["memory_lab"]), Command::Help);
}

#[test]
fn align_up_rounds_offsets_to_requested_alignment() {
    assert_eq!(align_up(0, 8), 0);
    assert_eq!(align_up(1, 8), 8);
    assert_eq!(align_up(8, 8), 8);
    assert_eq!(align_up(9, 8), 16);
}

#[test]
fn bump_arena_allocates_aligned_regions_and_resets() {
    let mut arena = BumpArena::new(64);
    let a = arena.allocate(3, 1).unwrap();
    let b = arena.allocate(8, 8).unwrap();

    assert_eq!(a.offset, 0);
    assert_eq!(b.offset, 8);
    assert_eq!(arena.used(), 16);

    arena.reset();
    assert_eq!(arena.used(), 0);
    assert_eq!(arena.allocate(65, 1), None);
}

#[test]
fn stride_plan_visits_expected_indexes() {
    assert_eq!(stride_indexes(10, 3), vec![0, 3, 6, 9]);
    assert_eq!(stride_indexes(0, 4), Vec::<usize>::new());
}

#[test]
fn fixed_visit_strided_sum_keeps_work_count_constant() {
    let data = [1, 2, 3, 4];

    assert_eq!(strided_sum_fixed_visits(&data, 1, 4), 10);
    assert_eq!(strided_sum_fixed_visits(&data, 2, 4), 8);
    assert_eq!(strided_sum_fixed_visits(&data, 0, 4), 0);
}

#[test]
fn layout_report_includes_size_alignment_and_address() {
    let value = 42_u64;
    let printed = format!("{:p}", &value);
    let addr = usize::from_str_radix(printed.trim_start_matches("0x"), 16).unwrap();
    let report = layout_report(
        "u64 local",
        addr,
        std::mem::size_of::<u64>(),
        std::mem::align_of::<u64>(),
    );

    assert!(report.contains("u64 local"));
    assert!(report.contains("size=8"));
    assert!(report.contains("align=8"));
    assert!(report.contains("addr=0x"));
}

#[test]
fn format_bits_u8_groups_bits_by_position() {
    assert_eq!(format_bits_u8(0b1010_1100), "1010_1100");
    assert_eq!(format_bits_u8(0), "0000_0000");
    assert_eq!(format_bits_u8(255), "1111_1111");
}

#[test]
fn dump_bytes_numbers_each_addressed_cell() {
    let dump = dump_bytes(&[0x12, 0x34, 0xab]);

    assert!(dump.contains("address"));
    assert!(dump.contains("0x00"));
    assert!(dump.contains("0x12"));
    assert!(dump.contains("0x02"));
    assert!(dump.contains("1010_1011"));
}

#[test]
fn tiny_ram_loads_and_stores_addressed_bytes() {
    let mut ram = TinyRam::new(4);

    assert_eq!(ram.load(2), Some(0));
    assert_eq!(ram.store(2, 0xaa), Some(()));
    assert_eq!(ram.load(2), Some(0xaa));
    assert_eq!(ram.load(4), None);
    assert_eq!(ram.store(4, 1), None);
}

#[test]
fn tiny_cpu_load_add_store_moves_data_between_ram_and_registers() {
    let mut cpu = TinyCpu::new(TinyRam::from_bytes(&[7, 5, 0, 0]));

    cpu.load(0, 0).unwrap();
    cpu.load(1, 1).unwrap();
    cpu.add(2, 0, 1);
    cpu.store(2, 2).unwrap();

    assert_eq!(cpu.registers, [7, 5, 12]);
    assert_eq!(cpu.ram.load(2), Some(12));
}

#[test]
fn dump_bytes_exact_lines() {
    let dump = dump_bytes(&[0x12, 0xab]);
    assert_eq!(
        dump,
        "address  hex   bits\n0x00    0x12  0001_0010\n0x01    0xab  1010_1011\n"
    );
}

#[test]
fn dump_bytes_widens_large_addresses() {
    let bytes = vec![0u8; 257];
    let dump = dump_bytes(&bytes);
    assert!(dump.ends_with("0x100    0x00  0000_0000\n"));
}

#[test]
fn layout_report_exact_text() {
    let report = layout_report("x", 0x1f, 8, 4);
    assert_eq!(
        report,
        "x                            addr=0x000000000000001f size=8 align=4"
    );
}

#[test]
fn tiny_ram_dump_lists_cells() {
    let ram = TinyRam::from_bytes(&[1, 2]);
    assert_eq!(
        ram.dump(),
        "address  hex   bits\n0x00    0x01  0000_0001\n0x01    0x02  0000_0010\n"
    );
}

#[test]
fn tiny_cpu_add_wraps_and_rejects_bad_register() {
    let mut cpu = TinyCpu::new(TinyRam::from_bytes(&[200, 100]));
    assert_eq!(cpu.load(0, 0), Some(()));
    assert_eq!(cpu.load(1, 1), Some(()));
    cpu.add(2, 0, 1);
    assert_eq!(cpu.registers, [200, 100, 44]);
    assert_eq!(cpu.load(3, 0), None);
    assert_eq!(cpu.load(0, 2), None);
    assert_eq!(cpu.store(2, 5), None);
}

#[test]
fn parse_command_edge_cases() {
    assert_eq!(parse_command(&["memory_lab", "day+7"]), Command::RunDay(7));
    assert_eq!(parse_command(&["memory_lab", "day007"]), Command::RunDay(7));
    assert_eq!(parse_command(&["memory_lab", "day"]), Command::Help);
    assert_eq!(parse_command(&["memory_lab", "day-1"]), Command::Help);
    assert_eq!(parse_command(&["memory_lab", "day256"]), Command::Help);
    assert_eq!(parse_command(&["memory_lab", "Day01"]), Command::Help);
    assert_eq!(parse_command(&["memory_lab", "all", "extra"]), Command::RunAll);
    assert_eq!(parse_command(&[]), Command::Help);
}

#[test]
fn align_up_treats_zero_alignment_as_one() {
    assert_eq!(align_up(5, 0), 5);
    assert_eq!(align_up(5, 1), 5);
    assert_eq!(align_up(17, 16), 32);
}

#[test]
fn bump_arena_refuses_without_moving_the_cursor() {
    let mut arena = BumpArena::new(16);
    assert_eq!(arena.allocate(10, 1).map(|b| b.offset), Some(0));
    assert_eq!(arena.allocate(8, 8), None);
    assert_eq!(arena.used(), 10);
    assert_eq!(arena.capacity(), 16);
    let c = arena.allocate(6, 0).unwrap();
    assert_eq!((c.offset, c.size), (10, 6));
    assert_eq!(arena.used(), 16);
}

#[test]
fn sums_wrap_around() {
    let data = [u64::MAX, 2, 3];
    assert_eq!(sequential_sum(&data), 4);
    assert_eq!(strided_sum(&data, 2), 2);
    assert_eq!(strided_sum(&data, 0), 0);
    assert_eq!(random_index_sum(&data, &[1, 1, 2]), 7);
}

#[test]
fn linked_list_sums_its_values() {
    let list = build_list(5);
    assert_eq!(list_sum(&list), 10);
    assert_eq!(list_sum(&build_list(0)), 0);
}

#[test]
fn shuffled_indexes_form_a_permutation() {
    let indexes = make_shuffled_indexes(50);
    let mut sorted = indexes.clone();
    sorted.sort();
    assert_eq!(sorted, (0..50).collect::<Vec<usize>>());
    assert_ne!(indexes, (0..50).collect::<Vec<usize>>());
    assert_eq!(make_shuffled_indexes(1), vec![0]);
    assert_eq!(make_shuffled_indexes(0), Vec::<usize>::new());
}

#[test]
fn rss_is_read_from_the_vmrss_line() {
    let status = "Name:\tmemory_lab\nVmPeak:\t  9000 kB\nVmRSS:\t    1234 kB\nThreads:\t1\n";
    assert_eq!(rss_kb_from_status(status), Some(1234));
}

#[test]
fn rss_takes_the_first_vmrss_line_and_handles_crlf() {
    assert_eq!(rss_kb_from_status("VmRSS: 7\r\nVmRSS: 8\n"), Some(7));
    assert_eq!(rss_kb_from_status("VmRSS:42"), Some(42));
}

#[test]
fn rss_is_missing_without_a_number() {
    assert_eq!(rss_kb_from_status(""), None);
    assert_eq!(rss_kb_from_status("Name:\tx\nVmSize: 10 kB\n"), None);
    assert_eq!(rss_kb_from_status("VmRSS:\n"), None);
    assert_eq!(rss_kb_from_status("VmRSS: many kB\nVmRSS: 5\n"), None);
    assert_eq!(rss_kb_from_status("  VmRSS: 5\n"), None);
}
