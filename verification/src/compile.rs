//! The whole reduction, from script text to script text.

use crate::code_parser::{calls_in, FunctionParser};
use crate::graph::{call_graph, required_listing, Graph};
use crate::names::keys;
use crate::preprocess::{preprocess_code, preprocessed};
use crate::laws::lemma_script_without_library;
use crate::source::{
    assembled, blocks, constructor_word, library_of, namespace_marker, user_of, CompileError,
    Failure, FrostSource,
};
use crate::text::{append, first_at, has_sub, to_chars, to_string};
use vstd::prelude::*;

verus! {

/// The name by which the user section calls the library.
pub open spec fn library_alias() -> Seq<char> {
    "fr"@
}

/// The reduced script. The script is cleaned and split; a script without a
/// library section is its cleaned user section. Otherwise the library section
/// is read, the methods that the user section calls are followed through the
/// call graph, and the library is put together again from the required
/// methods, the constructor first and the others in dictionary order, with
/// the user section after it.
pub open spec fn compiled(input: Seq<char>) -> Result<Seq<char>, Failure> {
    let clean = preprocessed(input);
    let library = library_of(clean);
    let user = user_of(clean);
    if library.len() == 0 {
        Ok(user)
    } else {
        match first_at(library, constructor_word()) {
            None => Err(Failure::MissingConstructor),
            Some(p) => {
                let header = library.subrange(0, p);
                let flagged = blocks(header, true, seq![]);
                let methods = blocks(
                    library.subrange(p, library.len() as int),
                    false,
                    keys(flagged),
                );
                let required = required_listing(
                    call_graph(methods),
                    calls_in(user, library_alias()),
                );
                match assembled(header, methods, flagged, required) {
                    Err(name) => Err(Failure::LookupFailure(name)),
                    Ok(text) => Ok(text + "\n"@ + user),
                }
            },
        }
    }
}

/// Reduces a script to the library methods that its user section needs.
/// A script whose cleaned text holds no namespace marker comes back as its
/// cleaned text. Fails where the library section has no constructor, or where
/// a required name has no method body.
pub fn compile_from_string(input: &str) -> (r: Result<String, CompileError>)
    ensures
        match compiled(input@) {
            Ok(text) => r matches Ok(out) && out@ == text,
            Err(failure) => r matches Err(e) && e@ == failure,
        },
        !has_sub(preprocessed(input@), namespace_marker()) ==> (r matches Ok(out) && out@
            == preprocessed(input@)),
{
    proof {
        if !has_sub(preprocessed(input@), namespace_marker()) {
            lemma_script_without_library(input@);
        }
    }
    let clean = preprocess_code(input);
    let source = FrostSource::from_body(clean.as_str());
    if source.fr.as_str().is_empty() {
        return Ok(source.main);
    }
    let fr_namespace = match source.extract_function_set() {
        Err(e) => {
            return Err(e);
        },
        Ok(fs) => fs,
    };
    let fr_call_graph = Graph::from_function_set(&fr_namespace);
    let mut parser = FunctionParser::new();
    parser.parse(source.main.as_str(), "fr");
    let called_functions = parser.get_methods();
    let required_methods = fr_call_graph.search(&called_functions);
    match fr_namespace.compile(&required_methods) {
        Err(e) => Err(e),
        Ok(compiled_fr_code) => {
            let mut out = to_chars(compiled_fr_code.as_str());
            append(&mut out, &to_chars("\n"));
            append(&mut out, &to_chars(source.main.as_str()));
            Ok(to_string(&out))
        },
    }
}

} // verus!
