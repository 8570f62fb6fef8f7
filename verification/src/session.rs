//! One turn of the search dialogue: what a line of input asks for.

use vstd::prelude::*;
use crate::loading::{process_input, query_mask};
use crate::text_process::{clean_up_text, cleaned, contains_word, tokenise, tokens_of};
use crate::vocabulary::Vocabulary;

verus! {

/// What to do with a line of input.
pub enum Turn {
    /// The line holds no token: there is nothing to search for.
    NoInput,
    /// The line holds the token `quit`: the dialogue ends.
    Quit,
    /// The line is a query, and these are the columns that it marks.
    Search { marks: Vec<bool> },
}

/// What a line asks for, over the terms of a vocabulary.
pub open spec fn turn_for(line: Seq<char>, terms: Seq<Seq<char>>, turn: Turn) -> bool {
    let query = tokens_of(cleaned(line));
    match turn {
        Turn::NoInput => query.len() == 0,
        Turn::Quit => query.len() > 0 && query.contains("quit"@),
        Turn::Search { marks } => {
            &&& query.len() > 0
            &&& !query.contains("quit"@)
            &&& marks@ == query_mask(query, terms)
        },
    }
}

/// Reads a line of input: cleans it up, splits it into tokens, and decides
/// whether it ends the dialogue, asks for nothing, or is a query, which is
/// then projected onto the vocabulary.
pub fn read_turn(line: &str, all_words: &Vocabulary) -> (turn: Turn)
    ensures
        turn_for(line@, all_words.terms_view(), turn),
{
    let cleaned_line = clean_up_text(line);
    match tokenise(cleaned_line.as_str()) {
        Err(_) => Turn::NoInput,
        Ok(query) => {
            if contains_word(query.as_slice(), "quit") {
                Turn::Quit
            } else {
                match process_input(query.as_slice(), all_words) {
                    Ok(marks) => Turn::Search { marks },
                    Err(_) => Turn::NoInput,
                }
            }
        },
    }
}

} // verus!
