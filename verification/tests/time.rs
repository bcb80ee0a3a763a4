use oysters::time::{elapsed_between, epoch_start, epoch_timestamp};

#[test]
fn epoch_start_of_given_years() {
    assert_eq!(epoch_start(1970), 0);
    assert_eq!(epoch_start(1971), 31_536_000_000);
    assert_eq!(epoch_start(2000), 946_684_800_000);
    assert_eq!(epoch_start(2024), 1_704_067_200_000);
    assert_eq!(epoch_start(2025), 1_735_689_600_000);
    assert_eq!(epoch_start(1900), -2_208_988_800_000);
    assert_eq!(epoch_start(0), -62_167_219_200_000);
    assert_eq!(epoch_start(1), -62_135_596_800_000);
}

#[test]
fn epoch_start_follows_the_leap_years() {
    let day = 86_400_000;
    for year in [1u16, 4, 100, 400, 1600, 1899, 1900, 1999, 2000, 2023, 2024, 2100, 65534] {
        let leap = (year % 4 == 0 && year % 100 != 0) || year % 400 == 0;
        let days = if leap { 366 } else { 365 };
        assert_eq!(epoch_start(year + 1) - epoch_start(year), days * day, "{year}");
    }
}

#[test]
fn elapsed_between_is_the_difference() {
    assert_eq!(elapsed_between(1_735_689_600_000, 1_735_689_600_000), 0);
    assert_eq!(elapsed_between(1_735_689_600_000, 1_735_689_600_001), 1);
    assert_eq!(elapsed_between(0, 604_800_000), 604_800_000);
    assert_eq!(elapsed_between(-5, 5), 10);
}

#[test]
fn elapsed_between_is_never_negative() {
    assert_eq!(elapsed_between(10, 5), 0);
    assert_eq!(elapsed_between(i64::MAX, i64::MIN), 0);
    assert_eq!(elapsed_between(i64::MIN, i64::MAX), usize::MAX);
}

#[test]
fn epoch_timestamp_counts_from_the_year() {
    let since_2025 = epoch_timestamp(2025);
    let since_2024 = epoch_timestamp(2024);
    assert!(since_2025 > 0);
    let year_2024 = 366usize * 86_400_000;
    assert!(since_2024 >= since_2025 + year_2024);
    assert!(since_2024 < since_2025 + year_2024 + 60_000);
    assert_eq!(epoch_timestamp(9999), 0);
}
