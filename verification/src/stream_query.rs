//! The streams that a client asks for when it connects, as delimited text.

use vstd::prelude::*;

use crate::message::{levels_or_default, DataType, DEFAULT_MAX_LEVELS};
use crate::text::{
    optional_text, parse_u32, parsed_u32, split, split_text, text_views, trim_text, trimmed,
};

verus! {

/// What a client asks for, as it arrives.
#[derive(Debug, Clone, PartialEq, Eq)]
pub struct StreamQuery {
    /// Stream definitions separated by commas, each a symbol, a data type
    /// and a number of levels separated by colons, of which the last two may
    /// be left out: `"BTCUSD:MBP:20,ETHUSD:MBO:10"`.
    pub streams: Option<String>,
    /// Symbols separated by commas: `"BTCUSD,ETHUSD"`. Read only where
    /// `streams` is absent.
    pub symbols: Option<String>,
    /// The data type of a stream that names none: `"MBO"`, or anything else
    /// for market by price.
    pub data_type: Option<String>,
    /// The number of levels of a stream that names none.
    pub max_levels: Option<u32>,
}

/// The mathematical value of a [`StreamQuery`].
pub struct StreamQueryView {
    pub streams: Option<Seq<char>>,
    pub symbols: Option<Seq<char>>,
    pub data_type: Option<Seq<char>>,
    pub max_levels: Option<u32>,
}

impl View for StreamQuery {
    type V = StreamQueryView;

    open spec fn view(&self) -> StreamQueryView {
        StreamQueryView {
            streams: optional_text(self.streams),
            symbols: optional_text(self.symbols),
            data_type: optional_text(self.data_type),
            max_levels: self.max_levels,
        }
    }
}

/// A stream asked for: its symbol, its data type and its number of levels.
pub type StreamDefinition = (String, DataType, u32);

/// The values of a sequence of stream definitions.
pub open spec fn definition_views(definitions: Seq<StreamDefinition>) -> Seq<
    (Seq<char>, DataType, u32),
> {
    definitions.map_values(|d: StreamDefinition| (d.0@, d.1, d.2))
}

/// A text with each character in upper case, as `str::to_uppercase` of std
/// gives it.
pub uninterp spec fn uppercased(text: Seq<char>) -> Seq<char>;

/// A text in upper case.
///
/// Trusted: calls `str::to_uppercase` of std, which maps each character by
/// the Unicode tables compiled into std; the result is a function of the
/// text alone, and the contract only gives it its name.
#[verifier::external_body]
fn to_uppercase(text: &str) -> (upper: String)
    ensures
        upper@ == uppercased(text@),
{
    text.to_uppercase()
}

/// The data type that a query's default names: market by order for `"MBO"`
/// exactly, else market by price.
pub open spec fn default_data_type(name: Option<Seq<char>>) -> DataType {
    if name == Some("MBO"@) {
        DataType::MBO
    } else {
        DataType::MBP
    }
}

/// The data type that a name in upper case stands for: market by order for
/// `"MBO"`, else market by price.
pub open spec fn data_type_named(upper: Seq<char>) -> DataType {
    if upper == "MBO"@ {
        DataType::MBO
    } else {
        DataType::MBP
    }
}

/// The stream that one definition asks for. The definition is trimmed, then
/// split at colons. The first part is the symbol. The second, if there is
/// one, names the data type, in any case of letters. The third, if there is
/// one and it reads as a number, is the number of levels. What is left out
/// comes from the query's defaults.
pub open spec fn parsed_definition(definition: Seq<char>, query: StreamQueryView) -> (
    Seq<char>,
    DataType,
    u32,
) {
    let parts = split(trimmed(definition), ':');
    (
        parts[0],
        if parts.len() >= 2 {
            data_type_named(uppercased(parts[1]))
        } else {
            default_data_type(query.data_type)
        },
        if parts.len() >= 3 {
            match parsed_u32(parts[2]) {
                Some(levels) => levels,
                None => levels_or_default(query.max_levels),
            }
        } else {
            levels_or_default(query.max_levels)
        },
    )
}

/// The stream that one symbol of a query asks for: the symbol trimmed, with
/// the query's defaults.
pub open spec fn parsed_symbol(symbol: Seq<char>, query: StreamQueryView) -> (
    Seq<char>,
    DataType,
    u32,
) {
    (trimmed(symbol), default_data_type(query.data_type), levels_or_default(query.max_levels))
}

/// The streams that a query asks for: one for each definition in `streams`;
/// without `streams`, one for each symbol in `symbols`; without both, none.
pub open spec fn parsed_streams(query: StreamQueryView) -> Seq<(Seq<char>, DataType, u32)> {
    match query.streams {
        Some(text) => split(text, ',').map_values(|d: Seq<char>| parsed_definition(d, query)),
        None => match query.symbols {
            Some(text) => split(text, ',').map_values(|s: Seq<char>| parsed_symbol(s, query)),
            None => Seq::empty(),
        },
    }
}

/// The stream that a client is given that asks for none: market by price of
/// `BTCUSD`, with the default number of levels.
pub open spec fn default_stream() -> (Seq<char>, DataType, u32) {
    ("BTCUSD"@, DataType::MBP, DEFAULT_MAX_LEVELS)
}

/// The streams that a client is given for a query: those that the query
/// asks for, or the default stream where it asks for none.
pub open spec fn requested_streams(query: StreamQueryView) -> Seq<(Seq<char>, DataType, u32)> {
    if parsed_streams(query).len() == 0 {
        seq![default_stream()]
    } else {
        parsed_streams(query)
    }
}

/// Executable form of [`data_type_named`].
pub fn data_type_from_upper(upper: &str) -> (data_type: DataType)
    ensures
        data_type == data_type_named(upper@),
{
    if upper.eq("MBO") {
        DataType::MBO
    } else {
        DataType::MBP
    }
}

impl StreamQuery {
    /// The data type of a stream that names none.
    pub fn get_default_data_type(&self) -> (data_type: DataType)
        ensures
            data_type == default_data_type(self@.data_type),
    {
        match &self.data_type {
            Some(name) => {
                if name.as_str().eq("MBO") {
                    DataType::MBO
                } else {
                    DataType::MBP
                }
            },
            None => DataType::MBP,
        }
    }

    /// The number of levels of a stream that names none.
    pub fn get_default_levels(&self) -> (levels: u32)
        ensures
            levels == levels_or_default(self@.max_levels),
    {
        match self.max_levels {
            Some(n) => n,
            None => DEFAULT_MAX_LEVELS,
        }
    }

    /// The stream that one definition asks for.
    fn parse_definition(&self, definition: &str) -> (stream: StreamDefinition)
        ensures
            (stream.0@, stream.1, stream.2) == parsed_definition(definition@, self@),
    {
        let parts = split_text(trim_text(definition), ':');
        let symbol = parts[0].clone();
        let data_type = if parts.len() >= 2 {
            let upper = to_uppercase(parts[1].as_str());
            data_type_from_upper(upper.as_str())
        } else {
            self.get_default_data_type()
        };
        let max_levels = if parts.len() >= 3 {
            match parse_u32(parts[2].as_str()) {
                Some(levels) => levels,
                None => self.get_default_levels(),
            }
        } else {
            self.get_default_levels()
        };
        (symbol, data_type, max_levels)
    }

    /// The streams that a client is given for the query, and whether they
    /// are the query's own: where the query asks for none, the client is
    /// given the default stream.
    pub fn requested_streams(&self) -> (requested: (Vec<StreamDefinition>, bool))
        ensures
            definition_views(requested.0@) == requested_streams(self@),
            requested.1 == (parsed_streams(self@).len() > 0),
    {
        let mut streams = self.parse_streams();
        assert(definition_views(streams@).len() == streams.len());
        if streams.len() > 0 {
            (streams, true)
        } else {
            streams.push((String::from_str("BTCUSD"), DataType::MBP, DEFAULT_MAX_LEVELS));
            assert(definition_views(streams@) =~= seq![default_stream()]);
            (streams, false)
        }
    }

    /// The streams that the query asks for.
    pub fn parse_streams(&self) -> (streams: Vec<StreamDefinition>)
        ensures
            definition_views(streams@) == parsed_streams(self@),
    {
        let mut streams: Vec<StreamDefinition> = Vec::new();
        match &self.streams {
            Some(text) => {
                let definitions = split_text(text.as_str(), ',');
                let ghost wanted = text_views(definitions@);
                let mut i: usize = 0;
                while i < definitions.len()
                    invariant
                        i <= definitions.len(),
                        wanted == text_views(definitions@),
                        definition_views(streams@) == wanted.take(i as int).map_values(
                            |d: Seq<char>| parsed_definition(d, self@),
                        ),
                    decreases definitions.len() - i,
                {
                    let stream = self.parse_definition(definitions[i].as_str());
                    let ghost done = definition_views(streams@);
                    streams.push(stream);
                    proof {
                        assert(definition_views(streams@) =~= done.push(
                            parsed_definition(wanted[i as int], self@),
                        ));
                        assert(wanted.take(i + 1).map_values(
                            |d: Seq<char>| parsed_definition(d, self@),
                        ) =~= done.push(parsed_definition(wanted[i as int], self@)));
                    }
                    i += 1;
                }
                assert(wanted.take(i as int) =~= wanted);
            },
            None => {
                match &self.symbols {
                    Some(text) => {
                        let symbols = split_text(text.as_str(), ',');
                        let ghost wanted = text_views(symbols@);
                        let data_type = self.get_default_data_type();
                        let max_levels = self.get_default_levels();
                        let mut i: usize = 0;
                        while i < symbols.len()
                            invariant
                                i <= symbols.len(),
                                wanted == text_views(symbols@),
                                data_type == default_data_type(self@.data_type),
                                max_levels == levels_or_default(self@.max_levels),
                                definition_views(streams@) == wanted.take(i as int).map_values(
                                    |s: Seq<char>| parsed_symbol(s, self@),
                                ),
                            decreases symbols.len() - i,
                        {
                            let symbol = String::from_str(trim_text(symbols[i].as_str()));
                            let ghost done = definition_views(streams@);
                            streams.push((symbol, data_type, max_levels));
                            proof {
                                assert(definition_views(streams@) =~= done.push(
                                    parsed_symbol(wanted[i as int], self@),
                                ));
                                assert(wanted.take(i + 1).map_values(
                                    |s: Seq<char>| parsed_symbol(s, self@),
                                ) =~= done.push(parsed_symbol(wanted[i as int], self@)));
                            }
                            i += 1;
                        }
                        assert(wanted.take(i as int) =~= wanted);
                    },
                    None => {
                        assert(definition_views(streams@) =~= Seq::empty());
                    },
                }
            },
        }
        streams
    }
}

} // verus!
