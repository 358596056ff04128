use city_spellcheck::records::{parse_records, row_of, split_fields, Row};
use city_spellcheck::{location_of, LocationError};

fn bytes(s: &str) -> Vec<u8> {
    s.as_bytes().to_vec()
}

fn row(fields: [&str; 5]) -> Row {
    Row {
        name: bytes(fields[0]),
        country: bytes(fields[1]),
        region: bytes(fields[2]),
        latitude: bytes(fields[3]),
        longitude: bytes(fields[4]),
    }
}

fn split(line: &str) -> Vec<String> {
    split_fields(line.as_bytes())
        .into_iter()
        .map(|f| String::from_utf8(f).unwrap())
        .collect()
}

#[test]
fn fields_are_split_at_commas() {
    assert_eq!(split("a,b,c"), vec!["a", "b", "c"]);
    assert_eq!(split("abc"), vec!["abc"]);
    assert_eq!(split(""), vec![""]);
    assert_eq!(split(","), vec!["", ""]);
    assert_eq!(split("a,,b,"), vec!["a", "", "b", ""]);
    assert_eq!(split("Montréal,CA"), vec!["Montréal", "CA"]);
    for line in ["a,b,c", "", ",", "a,,b,", "x, y ,z", ",,,,"] {
        let std: Vec<&str> = line.split(',').collect();
        assert_eq!(split(line), std);
    }
}

#[test]
fn row_needs_five_fields() {
    assert_eq!(row_of(split_fields(b"a,b,c,d")), None);
    assert_eq!(row_of(split_fields(b"a,b,c,d,e,f")), None);
    assert_eq!(row_of(split_fields(b"")), None);
    assert_eq!(row_of(split_fields(b"a,b,c,d,e")), Some(row(["a", "b", "c", "d", "e"])));
    assert_eq!(row_of(split_fields(b",,,,")), Some(row(["", "", "", "", ""])));
}

#[test]
fn header_line_is_passed_over() {
    let text = "name,country,region,latitude,longitude\nAbbotsford,CA,02,49.05798,-122.25257\n";
    assert_eq!(
        parse_records(text.as_bytes()),
        vec![row(["Abbotsford", "CA", "02", "49.05798", "-122.25257"])]
    );
    assert_eq!(parse_records(b"a,b,c,d,e"), vec![]);
    assert_eq!(parse_records(b"a,b,c,d,e\n"), vec![]);
    assert_eq!(parse_records(b""), vec![]);
    assert_eq!(parse_records(b"\na,b,c,d,e"), vec![row(["a", "b", "c", "d", "e"])]);
}

#[test]
fn lines_with_another_field_count_are_passed_over() {
    let text = "h\nA,CA,02,1.0,2.0\nbroken,line\n\nB,US,OH,3.0,4.0,extra\nC,US,KY,5.0,6.0";
    assert_eq!(
        parse_records(text.as_bytes()),
        vec![row(["A", "CA", "02", "1.0", "2.0"]), row(["C", "US", "KY", "5.0", "6.0"])]
    );
}

#[test]
fn line_endings_are_not_part_of_a_line() {
    let text = "h\r\nA,CA,02,1.0,2.0\r\nB,US,OH,3.0,4.0\n";
    assert_eq!(
        parse_records(text.as_bytes()),
        vec![row(["A", "CA", "02", "1.0", "2.0"]), row(["B", "US", "OH", "3.0", "4.0"])]
    );
    assert_eq!(
        parse_records(b"h\nA,CA,02,1.0,2.0\r"),
        vec![row(["A", "CA", "02", "1.0", "2.0\r"])]
    );
    assert_eq!(
        parse_records(b"h\nA,CA,02,1.0,\r\n"),
        vec![row(["A", "CA", "02", "1.0", ""])]
    );
    assert_eq!(
        parse_records(b"h\nA,CA,02,1.0,2.0\r\r\n"),
        vec![row(["A", "CA", "02", "1.0", "2.0\r"])]
    );
}

#[test]
fn rows_follow_the_lines_of_the_text() {
    for text in [
        "h\na,b,c,d,e\n",
        "h\r\na,b,c,d,e\r\nf,g\n\n,,,,\n1,2,3,4,5",
        "",
        "\n",
        "\r\n\r\n",
        "h\n\n\na,b,c,d,e\r",
        "only,header,line,of,five",
    ] {
        let expected: Vec<Row> = text
            .lines()
            .skip(1)
            .filter_map(|line| {
                let fields: Vec<&str> = line.split(',').collect();
                if let [a, b, c, d, e] = fields[..] {
                    Some(row([a, b, c, d, e]))
                } else {
                    None
                }
            })
            .collect();
        assert_eq!(parse_records(text.as_bytes()), expected);
    }
}

#[test]
fn location_needs_both_halves() {
    let both = location_of(Some(1), Some(2)).unwrap().unwrap();
    assert_eq!((both.latitude, both.longitude), (1, 2));
    assert!(location_of(None, None).unwrap().is_none());
    let err = location_of(Some(1), None).unwrap_err();
    assert_eq!(err, LocationError::MissingLongitude);
    assert_eq!(err.message(), "If you supply latitude you must also supply longitude!");
    let err = location_of(None, Some(2)).unwrap_err();
    assert_eq!(err, LocationError::MissingLatitude);
    assert_eq!(err.message(), "If you supply longitude you must also supply latitude!");
}

#[derive(Debug)]
struct City<'a> {
    name: &'a str,
    country: &'a str,
    region: &'a str,
    latitude: f32,
    longitude: f32,
}

fn populate(cities: &mut city_spellcheck::CityData, text: &str) -> Result<(), Box<dyn std::error::Error>> {
    for row in parse_records(text.as_bytes()) {
        let latitude: f32 = std::str::from_utf8(&row.latitude)?.parse()?;
        let longitude: f32 = std::str::from_utf8(&row.longitude)?.parse()?;
        cities.add_city(
            std::str::from_utf8(&row.name)?,
            std::str::from_utf8(&row.country)?,
            std::str::from_utf8(&row.region)?,
            latitude.to_bits(),
            longitude.to_bits(),
        );
    }
    Ok(())
}

#[test]
fn test_populate_from_file() {
    let mut cities = city_spellcheck::CityData::new();
    populate(
        &mut cities,
        "name,country,region,latitude,longitude\nAbbotsford,CA,02,49.05798,-122.25257\nAirdrie,CA,01,51.30011,-114.03528\n",
    )
    .unwrap();
    let first = cities.get_city(0);
    let first = City {
        name: first.name,
        country: first.country,
        region: first.region,
        latitude: f32::from_bits(first.latitude),
        longitude: f32::from_bits(first.longitude),
    };
    assert_eq!(format!("{:?}", first), "City { name: \"Abbotsford\", country: \"CA\", region: \"02\", latitude: 49.05798, longitude: -122.25257 }");
    assert_eq!(cities.len(), 2);
}

#[test]
fn bad_number_ends_the_load() {
    let mut cities = city_spellcheck::CityData::new();
    let outcome = populate(&mut cities, "h\nA,CA,02,1.0,2.0\nB,CA,02,north,2.0\nC,CA,02,1.0,2.0\n");
    assert!(outcome.is_err());
    assert_eq!(cities.len(), 1);
}
