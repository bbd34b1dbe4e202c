use react_labs::calendar::{Calendar, CalendarIterator, Hour};

fn calendar_or_panic(calstr: &str) -> Calendar {
    match Calendar::from_string(calstr) {
        Ok(cal) => cal,
        Err(e) => {
            panic!("Error: {:?}", e);
        }
    }
}

fn count_slots(mut it: CalendarIterator) -> usize {
    let mut n = 0;
    while it.next().is_some() {
        n += 1;
    }
    n
}

#[test]
fn no_appointments() {
    let c1 = calendar_or_panic("8:30\n18:30");
    let mut slots = c1.find_slots(30);
    let slot = slots.next().unwrap();
    assert_eq!(slot.0, Hour::new(8, 30));
    assert_eq!(slot.1, Hour::new(18, 30));
    assert_eq!(slots.next(), None);
}

#[test]
fn both_no_appointments() {
    let c1 = calendar_or_panic("8:30\n18:30");
    let c2 = calendar_or_panic("9:00\n20:00");
    let total = count_slots(c1.find_slots(30)) + count_slots(c2.find_slots(30));
    assert_eq!(total, 2);
}

#[test]
fn full_calendar() {
    let c1 = calendar_or_panic(
        "8:30\n18:30\n8:30\n10:00\n10:00\n12:00\n12:00\n14:00\n14:00\n16:00\n16:00\n18:30",
    );
    let slots = c1.find_slots(30);
    assert_eq!(count_slots(slots), 0);
}

#[test]
fn not_enough_time() {
    let c1 = calendar_or_panic(
        "8:30\n18:30\n9:00\n10:00\n10:30\n12:00\n12:30\n14:00\n14:30\n16:00\n16:30\n18:00",
    );
    let slots = c1.find_slots(60);
    assert_eq!(count_slots(slots), 0);
}

#[test]
fn available_at_start_and_end() {
    let c1 = calendar_or_panic("8:30\n18:30\n9:00\n18:00");
    let mut slots = c1.find_slots(30);
    let slot = slots.next().unwrap();
    assert_eq!(slot.0, Hour::new(8, 30));
    assert_eq!(slot.1, Hour::new(9, 0));
    let slot = slots.next().unwrap();
    assert_eq!(slot.0, Hour::new(18, 0));
    assert_eq!(slot.1, Hour::new(18, 30));
    assert_eq!(slots.next(), None);
}

#[test]
fn exact_duration() {
    let c1 = calendar_or_panic("8:30\n18:30\n8:30\n14:30\n15:30\n18:30");
    let mut slots = c1.find_slots(60);
    let slot = slots.next().unwrap();
    assert_eq!(slot.0, Hour::new(14, 30));
    assert_eq!(slot.1, Hour::new(15, 30));
    assert_eq!(slots.next(), None);
}
