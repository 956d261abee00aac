use cqupt_ics::ics::IcsGenerator;
use cqupt_ics::location::LocationManager;
use cqupt_ics::types::{IcsOptions, LocationMapping};

#[test]
fn test_various_locations() {
    let options = IcsOptions::default();
    let generator = IcsGenerator::new(options);

    let test_cases = vec![
        ("2108", "重庆邮电大学二教学楼"),
        ("YF301", "重庆邮电大学-逸夫科技楼"),
        ("SL101", "重庆邮电大学数理学院"),
        ("风华运动场", "风华运动场"),
        ("太极体育场", "重庆邮电大学-太极体育场"),
        ("乒乓球馆", "风雨操场(乒乓球馆)"),
        ("篮球馆", "重庆邮电学院篮球排球馆"),
        ("仙桃A08", "重庆仙桃数据谷A08"),
        ("1234", "重庆邮电大学-光电工程学院"),
        ("8301", "重庆邮电大学八教学楼A栋"),
    ];

    for (location_input, expected_building) in test_cases {
        let geo_location = generator.location_manager().get_location_with_geo(location_input);
        assert!(
            geo_location.contains(expected_building),
            "位置 {} 应该包含 {}",
            location_input,
            expected_building
        );
        assert!(
            geo_location.contains("GEO:"),
            "位置 {} 应该包含地理坐标",
            location_input
        );
    }
}

#[test]
fn fourth_building_room_gets_its_coordinates() {
    let manager = LocationManager::default();
    let geo = manager.get_location_with_geo("4307");
    assert!(geo.contains("重庆邮电大学第四教学楼"));
    assert!(geo.contains("GEO:29.536107;106.608759"));
}

#[test]
fn room_number_is_the_leftmost_four_digit_run() {
    // The room is read out of the surrounding text: "AB12345" holds "1234"
    // first, which names the first building.
    let manager = LocationManager::default();
    let geo = manager.get_location_with_geo("AB12345");
    assert!(geo.contains("重庆邮电大学-光电工程学院"));
    // Without four consecutive digits the fallback block is used.
    let geo = manager.get_location_with_geo("没有房间号");
    assert!(geo.contains("GEO:29.530807;106.607617"));
}

#[test]
fn normalize_location_prefers_exact_then_fuzzy_then_cleanup() {
    let mut manager = LocationManager::new();
    manager.add_mapping(LocationMapping {
        original: "第二教学楼".to_string(),
        normalized: "二教".to_string(),
        building: Some("第二教学楼".to_string()),
        room: None,
        campus: Some("南山校区".to_string()),
    });
    assert_eq!(manager.normalize_location("第二教学楼"), "二教");
    assert_eq!(manager.normalize_location("第二教学楼2108"), "二教");
    assert_eq!(manager.normalize_location("  某处教学楼  "), "某处");
}

#[test]
fn add_mapping_replaces_an_existing_original() {
    let mut manager = LocationManager::new();
    manager.add_mapping(LocationMapping {
        original: "实验楼".to_string(),
        normalized: "旧".to_string(),
        building: None,
        room: None,
        campus: None,
    });
    manager.add_mapping(LocationMapping {
        original: "实验楼".to_string(),
        normalized: "新".to_string(),
        building: None,
        room: None,
        campus: None,
    });
    assert_eq!(manager.get_all_mappings().len(), 1);
    assert_eq!(manager.normalize_location("实验楼"), "新");
    assert_eq!(
        manager.get_location_details("实验楼").unwrap().normalized,
        "新"
    );
    assert!(manager.get_location_details("别处").is_none());
}
