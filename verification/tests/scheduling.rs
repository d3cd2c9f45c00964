use jda::models::{ActivePart, Download, Part};
use jda::scheduler::get_next_part;
use jda::transfer::{abandon_part, record_progress, release_part, set_worker_speed};

fn sample(total: u64, parts: Vec<Part>) -> Download {
    Download {
        id: "d1".to_string(),
        link: "https://example.com/f.bin".to_string(),
        name: "f.bin".to_string(),
        location: "/tmp".to_string(),
        resume: true,
        downloaded: parts.iter().map(|p| p.downloaded).sum(),
        total,
        start_time: None,
        elapsed: 0,
        speed: 0,
        state: "Downloading".to_string(),
        is_selected: false,
        connections: vec![],
        parts,
        speeds: vec![0, 0, 0, 0],
        cookies: None,
        user_agent: None,
        referer: None,
        headers: vec![],
    }
}

const MB: u64 = 1024 * 1024;

#[test]
fn unknown_size_gets_a_single_worker() {
    let mut d = sample(0, vec![]);
    d.downloaded = 42;
    let mut active = vec![];
    let g = get_next_part(&mut d, &mut active).unwrap();
    assert_eq!((g.part_index, g.start, g.offset, g.split_from), (0, 0, 42, None));
    assert_eq!(d.parts.len(), 1);
    assert_eq!((d.parts[0].start, d.parts[0].end, d.parts[0].downloaded), (0, 0, 42));
    assert_eq!(active.len(), 1);
    assert_eq!(active[0].current_pos, 42);
    // a second worker gets nothing
    assert!(get_next_part(&mut d, &mut active).is_none());
    assert_eq!(active.len(), 1);
}

#[test]
fn largest_unassigned_part_is_taken_first() {
    let parts = vec![
        Part { start: 0, end: 99, downloaded: 10 },
        Part { start: 100, end: 399, downloaded: 0 },
        Part { start: 400, end: 499, downloaded: 100 },
        Part { start: 500, end: 799, downloaded: 0 },
    ];
    let mut d = sample(800, parts);
    let mut active = vec![];
    let g = get_next_part(&mut d, &mut active).unwrap();
    // parts 1 and 3 tie with 300 bytes missing: the first wins
    assert_eq!((g.part_index, g.start, g.offset), (1, 100, 0));
    assert_eq!(active[0].end, 399);
    let g = get_next_part(&mut d, &mut active).unwrap();
    assert_eq!(g.part_index, 3);
    let g = get_next_part(&mut d, &mut active).unwrap();
    assert_eq!((g.part_index, g.start, g.offset), (0, 0, 10));
    assert_eq!(active[2].current_pos, 10);
    // part 2 is complete, everything else is taken, nothing is big enough to split
    assert!(get_next_part(&mut d, &mut active).is_none());
}

#[test]
fn busiest_worker_is_split_in_half() {
    let total = 100 * MB;
    let mut d = sample(total, vec![Part { start: 0, end: total - 1, downloaded: 0 }]);
    let mut active = vec![];
    let g = get_next_part(&mut d, &mut active).unwrap();
    assert_eq!(g.part_index, 0);
    active[0].current_pos = 20 * MB;
    let g = get_next_part(&mut d, &mut active).unwrap();
    let mid = 20 * MB + (total - 1 - 20 * MB) / 2;
    assert_eq!((g.part_index, g.start, g.offset, g.split_from), (1, mid, 0, Some(0)));
    assert_eq!(active[0].end, mid - 1);
    assert_eq!(d.parts[0].end, mid - 1);
    assert_eq!((d.parts[1].start, d.parts[1].end, d.parts[1].downloaded), (mid, total - 1, 0));
    assert_eq!((active[1].part_index, active[1].current_pos, active[1].end), (1, mid, total - 1));
}

#[test]
fn short_ranges_are_not_split() {
    let total = 100 * MB;
    let mut d = sample(total, vec![Part { start: 0, end: total - 1, downloaded: 0 }]);
    let mut active = vec![ActivePart { part_index: 0, start: 0, current_pos: total - 10 * MB, end: total - 1 }];
    // 10 MiB left: a split needs more than twice max(5 MiB, total/32)
    assert!(get_next_part(&mut d, &mut active).is_none());
    assert_eq!(active.len(), 1);
    assert_eq!(d.parts.len(), 1);
}

#[test]
fn release_part_drops_every_entry_of_the_part() {
    let mut active = vec![
        ActivePart { part_index: 2, start: 0, current_pos: 0, end: 9 },
        ActivePart { part_index: 5, start: 10, current_pos: 10, end: 19 },
        ActivePart { part_index: 2, start: 0, current_pos: 3, end: 9 },
    ];
    release_part(&mut active, 2);
    assert_eq!(active.len(), 1);
    assert_eq!(active[0].part_index, 5);
}

#[test]
fn abandoned_part_merges_into_its_predecessor() {
    let mut d = sample(200, vec![
        Part { start: 0, end: 99, downloaded: 40 },
        Part { start: 100, end: 199, downloaded: 0 },
    ]);
    d.speeds = vec![7, 9];
    d.speed = 16;
    let mut active = vec![ActivePart { part_index: 0, start: 0, current_pos: 40, end: 99 }];
    abandon_part(&mut d, &mut active, 1, 1);
    assert_eq!(d.speeds, vec![7, 0]);
    assert_eq!(d.speed, 7);
    assert_eq!((d.parts[0].start, d.parts[0].end), (0, 199));
    assert_eq!((d.parts[1].start, d.parts[1].end, d.parts[1].downloaded), (u64::MAX, u64::MAX, 0));
    assert_eq!(active[0].end, 199);
}

#[test]
fn abandoned_part_with_bytes_is_kept() {
    let mut d = sample(200, vec![
        Part { start: 0, end: 99, downloaded: 40 },
        Part { start: 100, end: 199, downloaded: 5 },
    ]);
    let mut active = vec![];
    abandon_part(&mut d, &mut active, 1, 9);
    assert_eq!((d.parts[1].start, d.parts[1].end, d.parts[1].downloaded), (100, 199, 5));
    assert_eq!(d.parts[0].end, 99);
}

#[test]
fn progress_is_summed_over_parts() {
    let mut d = sample(200, vec![
        Part { start: 0, end: 99, downloaded: 40 },
        Part { start: 100, end: 199, downloaded: 5 },
    ]);
    record_progress(&mut d, 1, 20);
    assert_eq!(d.parts[1].downloaded, 25);
    assert_eq!(d.downloaded, 65);
    record_progress(&mut d, 7, 20);
    assert_eq!(d.downloaded, 65);
}

#[test]
fn worker_speed_is_summed() {
    let mut d = sample(200, vec![]);
    d.speeds = vec![1, 2, 3];
    set_worker_speed(&mut d, 1, 10);
    assert_eq!(d.speeds, vec![1, 10, 3]);
    assert_eq!(d.speed, 14);
    set_worker_speed(&mut d, 9, 10);
    assert_eq!(d.speed, 14);
}

#[test]
fn the_byte_counter_follows_splits_and_abandons() {
    let total = 100 * MB;
    let mut d = sample(total, vec![Part { start: 0, end: total - 1, downloaded: 3 * MB }]);
    let mut active = vec![];
    get_next_part(&mut d, &mut active).unwrap();
    active[0].current_pos = 3 * MB;
    let g = get_next_part(&mut d, &mut active).unwrap();
    let sum: u64 = d.parts.iter().map(|p| p.downloaded).sum();
    assert_eq!(sum, d.downloaded);
    assert_eq!(d.downloaded, 3 * MB);
    release_part(&mut active, g.part_index);
    abandon_part(&mut d, &mut active, g.part_index, 1);
    let sum: u64 = d.parts.iter().map(|p| p.downloaded).sum();
    assert_eq!(sum, 3 * MB);
    assert_eq!(d.parts[0].end, total - 1);
    assert_eq!(active[0].end, total - 1);
}
