use libreeb::{slice_events, Event, SliceBy};

fn cd(t: u64) -> Event {
    Event::CD { x: 0, y: 0, p: 1, t }
}

#[test]
fn slices_by_count_take_any_events() {
    let events = vec![Event::Unknown(), cd(1), Event::Unknown(), cd(2), cd(3), Event::Unknown()];
    let slices = slice_events(&events, SliceBy::Count(2));
    assert_eq!(slices, vec![vec![cd(1), Event::Unknown()], vec![cd(2), cd(3)]]);
}

#[test]
fn slices_by_time_drop_the_closing_event() {
    let events = vec![cd(0), Event::Unknown(), cd(5), cd(12), cd(13), cd(30)];
    let slices = slice_events(&events, SliceBy::Time(10));
    assert_eq!(slices, vec![vec![cd(0), cd(5)], vec![cd(13)]]);
}

#[test]
fn slices_by_both_stop_at_count() {
    let events = vec![cd(0), cd(5), cd(12), cd(13), cd(200)];
    let slices = slice_events(&events, SliceBy::Both(100, 2));
    assert_eq!(slices, vec![vec![cd(0), cd(5)], vec![cd(12), cd(13)], vec![cd(200)]]);
}

#[test]
fn time_window_past_u64_range() {
    let events = vec![cd(u64::MAX - 1), cd(u64::MAX)];
    let slices = slice_events(&events, SliceBy::Time(10));
    assert_eq!(slices, vec![vec![cd(u64::MAX - 1), cd(u64::MAX)]]);
}

#[test]
fn triggers_open_slices_too() {
    let trigger = Event::ExternalTrigger { id: 1, p: 1, t: 4 };
    let slices = slice_events(&vec![trigger, cd(6)], SliceBy::Time(1));
    assert_eq!(slices, vec![vec![trigger]]);
}

