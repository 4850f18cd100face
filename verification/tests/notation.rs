use go_game::board::Point;
use go_game::notation::{parse_coordinate, point_from_search, ParseError, Search};

#[test]
fn point_try_from() {
    let given = "0,0".to_string();
    let result = Point::try_from(given).unwrap();
    assert_eq!(result, Point { row: 0, col: 0 });

    let given = "1,0".to_string();
    let result = Point::try_from(given).unwrap();
    assert_eq!(result, Point { row: 1, col: 0 });

    let given = "10,0".to_string();
    let result = Point::try_from(given).unwrap();
    assert_eq!(result, Point { row: 10, col: 0 });

    let given = "10,10".to_string();
    let result = Point::try_from(given).unwrap();
    assert_eq!(result, Point { row: 10, col: 10 });

    // failure case
    let given = "abc".to_string();
    let result = Point::try_from(given);
    assert!(result.is_err());
}

#[test]
fn a_point_is_found_anywhere_in_the_text() {
    assert_eq!(Point::try_from("move 3,12 please".to_string()), Ok(Point { row: 3, col: 12 }));
    assert_eq!(Point::try_from("x7,8,9".to_string()), Ok(Point { row: 7, col: 8 }));
    assert_eq!(Point::try_from("1,a 2,3".to_string()), Ok(Point { row: 2, col: 3 }));
    assert_eq!(Point::try_from("007,127".to_string()), Ok(Point { row: 7, col: 127 }));
}

#[test]
fn a_text_without_a_point_is_not_found() {
    assert_eq!(Point::try_from("abc".to_string()), Err(ParseError::NotFound));
    assert_eq!(Point::try_from("".to_string()), Err(ParseError::NotFound));
    assert_eq!(Point::try_from("12".to_string()), Err(ParseError::NotFound));
    assert_eq!(Point::try_from("1, 2".to_string()), Err(ParseError::NotFound));
    assert_eq!(Point::try_from(",5".to_string()), Err(ParseError::NotFound));
}

#[test]
fn a_number_too_large_for_a_coordinate_is_refused() {
    assert_eq!(Point::try_from("128,1".to_string()), Err(ParseError::Number));
    assert_eq!(Point::try_from("1,300".to_string()), Err(ParseError::Number));
    assert_eq!(
        Point::try_from("99999999999999999999999999,1".to_string()),
        Err(ParseError::Number)
    );
}

#[test]
fn coordinates_in_decimal() {
    assert_eq!(parse_coordinate("0"), Some(0));
    assert_eq!(parse_coordinate("9"), Some(9));
    assert_eq!(parse_coordinate("19"), Some(19));
    assert_eq!(parse_coordinate("127"), Some(127));
    assert_eq!(parse_coordinate("000000000000000127"), Some(127));
    assert_eq!(parse_coordinate("128"), None);
    assert_eq!(parse_coordinate("130"), None);
    assert_eq!(parse_coordinate("1270"), None);
    assert_eq!(parse_coordinate(""), None);
    assert_eq!(parse_coordinate("-1"), None);
    assert_eq!(parse_coordinate("+1"), None);
    assert_eq!(parse_coordinate("1a"), None);
    assert_eq!(parse_coordinate("a1"), None);
    assert_eq!(parse_coordinate(" 1"), None);
    assert_eq!(parse_coordinate("١"), None);
}

#[test]
fn the_point_of_each_outcome_of_a_search() {
    let text = |s: &str| Some(s.to_string());
    assert_eq!(point_from_search(&Search::BadPattern), Err(ParseError::Pattern));
    assert_eq!(point_from_search(&Search::NoMatch), Err(ParseError::NotFound));
    assert_eq!(
        point_from_search(&Search::Match(vec![text("4,5"), text("4"), text("5")])),
        Ok(Point { row: 4, col: 5 })
    );
    // the whole match plays no part
    assert_eq!(
        point_from_search(&Search::Match(vec![None, text("4"), text("5")])),
        Ok(Point { row: 4, col: 5 })
    );
    assert_eq!(
        point_from_search(&Search::Match(vec![text("4,5"), text("4")])),
        Err(ParseError::NotFound)
    );
    assert_eq!(
        point_from_search(&Search::Match(vec![text("4,5"), text("4"), text("5"), text("6")])),
        Err(ParseError::NotFound)
    );
    assert_eq!(point_from_search(&Search::Match(vec![])), Err(ParseError::NotFound));
    assert_eq!(
        point_from_search(&Search::Match(vec![text("4,5"), None, text("5")])),
        Err(ParseError::NotFound)
    );
    assert_eq!(
        point_from_search(&Search::Match(vec![text("4,5"), text("4"), None])),
        Err(ParseError::NotFound)
    );
    assert_eq!(
        point_from_search(&Search::Match(vec![text("x"), text("4"), text("b")])),
        Err(ParseError::Number)
    );
    assert_eq!(
        point_from_search(&Search::Match(vec![text("x"), text("200"), text("1")])),
        Err(ParseError::Number)
    );
}
