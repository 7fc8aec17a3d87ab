use market_depth::stream_query::data_type_from_upper;
use market_depth::{DataType, StreamQuery};

fn query(
    streams: Option<&str>,
    symbols: Option<&str>,
    data_type: Option<&str>,
    max_levels: Option<u32>,
) -> StreamQuery {
    StreamQuery {
        streams: streams.map(str::to_string),
        symbols: symbols.map(str::to_string),
        data_type: data_type.map(str::to_string),
        max_levels,
    }
}

fn stream(symbol: &str, data_type: DataType, levels: u32) -> (String, DataType, u32) {
    (symbol.to_string(), data_type, levels)
}

#[test]
fn stream_definitions_name_symbol_type_and_levels() {
    let parsed = query(Some("BTCUSD:MBP:20,ETHUSD:MBO:10"), None, None, None).parse_streams();
    assert_eq!(
        parsed,
        vec![stream("BTCUSD", DataType::MBP, 20), stream("ETHUSD", DataType::MBO, 10)]
    );
}

#[test]
fn what_a_definition_leaves_out_comes_from_the_defaults() {
    let with_defaults = query(Some("A,B:MBP,C:MBO"), None, Some("MBO"), Some(7));
    assert_eq!(
        with_defaults.parse_streams(),
        vec![stream("A", DataType::MBO, 7), stream("B", DataType::MBP, 7), stream("C", DataType::MBO, 7)]
    );
    let without = query(Some("A"), None, None, None);
    assert_eq!(without.parse_streams(), vec![stream("A", DataType::MBP, 20)]);
}

#[test]
fn the_data_type_of_a_definition_is_read_in_any_case() {
    let parsed = query(Some("a:mbo,b:Mbo,c:mbp,d:other,e:"), None, None, None).parse_streams();
    let types: Vec<DataType> = parsed.iter().map(|s| s.1).collect();
    assert_eq!(
        types,
        vec![DataType::MBO, DataType::MBO, DataType::MBP, DataType::MBP, DataType::MBP]
    );
    assert_eq!(data_type_from_upper("MBO"), DataType::MBO);
    assert_eq!(data_type_from_upper("mbo"), DataType::MBP);
    assert_eq!(data_type_from_upper("MBOX"), DataType::MBP);
}

#[test]
fn the_default_data_type_is_read_as_it_stands() {
    assert_eq!(query(None, None, Some("MBO"), None).get_default_data_type(), DataType::MBO);
    assert_eq!(query(None, None, Some("mbo"), None).get_default_data_type(), DataType::MBP);
    assert_eq!(query(None, None, Some("MBP"), None).get_default_data_type(), DataType::MBP);
    assert_eq!(query(None, None, None, None).get_default_data_type(), DataType::MBP);
    assert_eq!(query(None, None, None, None).get_default_levels(), 20);
    assert_eq!(query(None, None, None, Some(0)).get_default_levels(), 0);
}

#[test]
fn levels_that_do_not_read_as_a_number_fall_back_to_the_default() {
    let parsed =
        query(Some("a:MBP:x,b:MBP:,c:MBP:-3,d:MBP:+5,e:MBP:4294967296,f:MBP: 9"), None, None, Some(11))
            .parse_streams();
    let levels: Vec<u32> = parsed.iter().map(|s| s.2).collect();
    assert_eq!(levels, vec![11, 11, 11, 5, 11, 11]);
}

#[test]
fn definitions_are_trimmed_and_their_parts_are_not() {
    let parsed = query(Some("  BTCUSD:MBO:5  , ETHUSD : MBO : 5 "), None, None, None).parse_streams();
    assert_eq!(
        parsed,
        vec![stream("BTCUSD", DataType::MBO, 5), stream("ETHUSD ", DataType::MBP, 20)]
    );
    let more = query(Some("a:b:3:extra"), None, None, None).parse_streams();
    assert_eq!(more, vec![stream("a", DataType::MBP, 3)]);
}

#[test]
fn symbols_are_read_where_there_are_no_definitions() {
    let parsed = query(None, Some("BTCUSD, ETHUSD ,ADAUSD"), Some("MBO"), Some(15)).parse_streams();
    assert_eq!(
        parsed,
        vec![
            stream("BTCUSD", DataType::MBO, 15),
            stream("ETHUSD", DataType::MBO, 15),
            stream("ADAUSD", DataType::MBO, 15),
        ]
    );
    // Definitions take precedence over symbols.
    let both = query(Some("X:MBO:1"), Some("Y"), None, None).parse_streams();
    assert_eq!(both, vec![stream("X", DataType::MBO, 1)]);
}

#[test]
fn an_empty_text_asks_for_one_stream_without_a_symbol() {
    assert_eq!(query(Some(""), None, None, None).parse_streams(), vec![stream("", DataType::MBP, 20)]);
    assert_eq!(query(None, Some(""), None, None).parse_streams(), vec![stream("", DataType::MBP, 20)]);
    assert_eq!(
        query(Some("a,,b"), None, None, None).parse_streams(),
        vec![stream("a", DataType::MBP, 20), stream("", DataType::MBP, 20), stream("b", DataType::MBP, 20)]
    );
    assert!(query(None, None, Some("MBO"), Some(3)).parse_streams().is_empty());
}

#[test]
fn a_query_that_asks_for_nothing_is_given_the_default_stream() {
    let (streams, asked_for) = query(None, None, Some("MBO"), Some(3)).requested_streams();
    assert_eq!(streams, vec![stream("BTCUSD", DataType::MBP, 20)]);
    assert!(!asked_for);
    let (streams, asked_for) = query(None, Some("X"), Some("MBO"), Some(3)).requested_streams();
    assert_eq!(streams, vec![stream("X", DataType::MBO, 3)]);
    assert!(asked_for);
}
