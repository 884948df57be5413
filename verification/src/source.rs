//! The two sections of a script, and the declarations found in its library
//! section.

use crate::names::{keys, lemma_stored, lookup, stored, MethodTable, NameSet};
use crate::preprocess::{preprocess_chars, preprocessed};
use crate::split::{
    advance, before_char, depth_after, join, joined, lines_of, push_line, remove_all,
    split_lines, stacked, take_before, texts, trim, trimmed, without, LINE_MAX,
};
use crate::text::{
    append, contains, contains_char, find, first_at, has_at, has_sub, occurs_at, same, slice,
    to_chars, to_string,
};
use vstd::prelude::*;

verus! {

/// The text that opens the library namespace.
pub open spec fn namespace_marker() -> Seq<char> {
    "namespace fr"@
}

/// Where the splitter stands: before the library block, inside it, or after it.
#[derive(Clone, Copy, Debug)]
pub enum Region {
    Before,
    Inside,
    After,
}

/// Whether `line`, met in `region`, belongs to the library block: every line
/// inside the block does, and so does the first line that holds the marker.
pub open spec fn in_block(region: Region, line: Seq<char>) -> bool {
    region is Inside || (region is Before && has_sub(line, namespace_marker()))
}

/// The region after a line of the block that leaves the brace depth at `depth`.
pub open spec fn region_at(depth: nat) -> Region {
    if depth == 0 {
        Region::After
    } else {
        Region::Inside
    }
}

/// The lines from position `i` on that belong to the library block, where
/// line `i` is met in `region` at brace depth `depth`.
pub open spec fn library_lines_from(
    lines: Seq<Seq<char>>,
    i: int,
    region: Region,
    depth: nat,
) -> Seq<Seq<char>>
    decreases lines.len() - i,
{
    if i < 0 || i >= lines.len() {
        seq![]
    } else if in_block(region, lines[i]) {
        let d = depth_after(depth, lines[i], '{', '}');
        seq![lines[i]] + library_lines_from(lines, i + 1, region_at(d), d)
    } else {
        library_lines_from(lines, i + 1, region, depth)
    }
}

/// The lines from position `i` on that do not belong to the library block.
pub open spec fn user_lines_from(
    lines: Seq<Seq<char>>,
    i: int,
    region: Region,
    depth: nat,
) -> Seq<Seq<char>>
    decreases lines.len() - i,
{
    if i < 0 || i >= lines.len() {
        seq![]
    } else if in_block(region, lines[i]) {
        let d = depth_after(depth, lines[i], '{', '}');
        user_lines_from(lines, i + 1, region_at(d), d)
    } else {
        seq![lines[i]] + user_lines_from(lines, i + 1, region, depth)
    }
}

/// The lines of the library block: from the first line that holds the
/// namespace marker to the line on which the braces opened since then are all
/// closed, or to the last line where they never are.
pub open spec fn library_lines(lines: Seq<Seq<char>>) -> Seq<Seq<char>> {
    library_lines_from(lines, 0, Region::Before, 0)
}

/// The lines outside the library block, in their order.
pub open spec fn user_lines(lines: Seq<Seq<char>>) -> Seq<Seq<char>> {
    user_lines_from(lines, 0, Region::Before, 0)
}

/// The library section of `text`.
pub open spec fn library_of(text: Seq<char>) -> Seq<char> {
    stacked(library_lines(lines_of(text)))
}

/// The user section of `text`.
pub open spec fn user_of(text: Seq<char>) -> Seq<char> {
    stacked(user_lines(lines_of(text)))
}

/// Stacking one more line appends it and a line feed.
pub proof fn lemma_stacked_push(lines: Seq<Seq<char>>, line: Seq<char>)
    ensures
        stacked(lines.push(line)) == stacked(lines) + line + seq!['\n'],
{
    assert(lines.push(line).drop_last() == lines);
}

/// A script split into its library section and its user section.
#[derive(Debug)]
pub struct FrostSource {
    /// The library namespace block, braces included.
    pub fr: String,
    /// Every other line, in their order.
    pub main: String,
}

/// Splits `text` into the library section and the user section.
pub fn split_sections(text: &Vec<char>) -> (r: (Vec<char>, Vec<char>))
    ensures
        r.0@ == library_of(text@),
        r.1@ == user_of(text@),
{
    let lines = split_lines(text);
    let marker = to_chars("namespace fr");
    let ghost all = texts(lines@);
    let mut fr: Vec<char> = Vec::new();
    let mut main: Vec<char> = Vec::new();
    let mut region = Region::Before;
    let mut depth: u128 = 0;
    let mut i: usize = 0;
    let ghost mut lib_acc: Seq<Seq<char>> = seq![];
    let ghost mut user_acc: Seq<Seq<char>> = seq![];
    assert(lib_acc + library_lines(all) == library_lines(all));
    assert(user_acc + user_lines(all) == user_lines(all));
    while i < lines.len()
        invariant
            i <= lines.len(),
            all == texts(lines@),
            marker@ == namespace_marker(),
            fr@ == stacked(lib_acc),
            main@ == stacked(user_acc),
            lib_acc + library_lines_from(all, i as int, region, depth as nat) == library_lines(all),
            user_acc + user_lines_from(all, i as int, region, depth as nat) == user_lines(all),
            depth <= i * LINE_MAX,
        decreases lines.len() - i,
    {
        let line = &lines[i];
        assert(all[i as int] == line@);
        let entering = match region {
            Region::Inside => true,
            Region::Before => contains(line, &marker),
            Region::After => false,
        };
        assert(entering == in_block(region, line@));
        if entering {
            push_line(&mut fr, line);
            let ghost old_depth = depth;
            depth = advance(depth, line, '{', '}');
            proof {
                lemma_stacked_push(lib_acc, line@);
                let tail = library_lines_from(all, i + 1, region_at(depth as nat), depth as nat);
                assert(lib_acc + (seq![line@] + tail) == lib_acc.push(line@) + tail);
                lib_acc = lib_acc.push(line@);
            }
            region = if depth == 0 {
                Region::After
            } else {
                Region::Inside
            };
        } else {
            push_line(&mut main, line);
            proof {
                lemma_stacked_push(user_acc, line@);
                let tail = user_lines_from(all, i + 1, region, depth as nat);
                assert(user_acc + (seq![line@] + tail) == user_acc.push(line@) + tail);
                user_acc = user_acc.push(line@);
            }
        }
        i += 1;
    }
    assert(lib_acc + Seq::<Seq<char>>::empty() == lib_acc);
    assert(user_acc + Seq::<Seq<char>>::empty() == user_acc);
    (fr, main)
}

impl FrostSource {
    /// Splits a script into its library section and its user section. The
    /// library section runs from the first line that holds the namespace
    /// marker to the line that closes the braces opened since; every other
    /// line goes to the user section. Each line ends with a line feed.
    pub fn from_body(body: &str) -> (r: Self)
        ensures
            r.fr@ == library_of(body@),
            r.main@ == user_of(body@),
    {
        let chars = to_chars(body);
        let (fr, main) = split_sections(&chars);
        FrostSource { fr: to_string(&fr), main: to_string(&main) }
    }

    /// Strips comments and redundant white space from the library section,
    /// and from the user section too where `clean_main` is set.
    pub fn preprocess(&mut self, clean_main: bool)
        ensures
            final(self).fr@ == preprocessed(old(self).fr@),
            final(self).main@ == if clean_main {
                preprocessed(old(self).main@)
            } else {
                old(self).main@
            },
    {
        let fr = to_chars(self.fr.as_str());
        self.fr = to_string(&preprocess_chars(&fr));
        if clean_main {
            let main = to_chars(self.main.as_str());
            self.main = to_string(&preprocess_chars(&main));
        }
    }
}

/// Why a script could not be reduced.
#[derive(Debug)]
pub enum CompileError {
    /// The library section holds no constructor, so its methods cannot be told
    /// from the declarations before them.
    MissingConstructor,
    /// A required name has no method body in the library section.
    LookupFailure(String),
}

/// What a `CompileError` says, with the name as a text.
pub enum Failure {
    MissingConstructor,
    LookupFailure(Seq<char>),
}

impl View for CompileError {
    type V = Failure;

    open spec fn view(&self) -> Failure {
        match self {
            CompileError::MissingConstructor => Failure::MissingConstructor,
            CompileError::LookupFailure(name) => Failure::LookupFailure(name@),
        }
    }
}

impl CompileError {
    /// The error in words.
    pub open spec fn describe(&self) -> Seq<char> {
        match self {
            CompileError::MissingConstructor => "library section has no constructor"@,
            CompileError::LookupFailure(name) => "couldn't find method: "@ + name@,
        }
    }

    /// The error in words.
    pub fn message(&self) -> (r: String)
        ensures
            r@ == self.describe(),
    {
        match self {
            CompileError::MissingConstructor => {
                let text = to_chars("library section has no constructor");
                to_string(&text)
            },
            CompileError::LookupFailure(name) => {
                let mut text = to_chars("couldn't find method: ");
                let n = to_chars(name.as_str());
                append(&mut text, &n);
                to_string(&text)
            },
        }
    }
}

/// The word that opens the record class's method region.
pub open spec fn constructor_word() -> Seq<char> {
    "constructor"@
}

/// The name of the top-level function that is kept only on demand.
pub open spec fn flagged_name() -> Seq<char> {
    "combine_dfs"@
}

/// A block that is being gathered: the name it will be stored under, its
/// lines so far, and the depth of the braces it has open.
pub struct Capture {
    pub name: Seq<char>,
    pub text: Seq<char>,
    pub depth: nat,
}

/// Whether `line` declares the flagged top-level function.
pub open spec fn opens_flagged(line: Seq<char>) -> bool {
    let t = trimmed(line);
    occurs_at(t, "export function"@, 0) && has_sub(t, "combine_dfs("@)
}

/// Whether `line` opens a method: it holds a `(` and ends with `{`.
pub open spec fn opens_method(line: Seq<char>) -> bool {
    let t = trimmed(line);
    t.contains('(') && t.len() > 0 && t.last() == '{'
}

/// The name of the method that `line` opens: what stands before its first `(`.
pub open spec fn method_name(line: Seq<char>) -> Seq<char> {
    trimmed(before_char(trimmed(line), '('))
}

/// Whether `line` opens a block of the kind looked for.
pub open spec fn opens_block(flagged: bool, line: Seq<char>) -> bool {
    if flagged {
        opens_flagged(line)
    } else {
        opens_method(line)
    }
}

/// The name under which the block that `line` opens is stored.
pub open spec fn block_name(flagged: bool, line: Seq<char>) -> Seq<char> {
    if flagged {
        flagged_name()
    } else {
        method_name(line)
    }
}

/// The table of blocks once the lines from position `i` on are read, given
/// the block being gathered and the table so far. A block starts at depth one
/// on its opening line and ends on the line that brings the depth back to
/// zero; it is then stored under its name, unless the name is reserved. A
/// block left open at the end is dropped.
pub open spec fn blocks_from(
    lines: Seq<Seq<char>>,
    i: int,
    open: Option<Capture>,
    table: Seq<(Seq<char>, Seq<char>)>,
    flagged: bool,
    reserved: Seq<Seq<char>>,
) -> Seq<(Seq<char>, Seq<char>)>
    decreases lines.len() - i,
{
    if i < 0 || i >= lines.len() {
        table
    } else {
        let line = lines[i];
        match open {
            None => if opens_block(flagged, line) {
                let c = Capture {
                    name: block_name(flagged, line),
                    text: line + seq!['\n'],
                    depth: 1,
                };
                blocks_from(lines, i + 1, Some(c), table, flagged, reserved)
            } else {
                blocks_from(lines, i + 1, None, table, flagged, reserved)
            },
            Some(c) => {
                let text = c.text + line + seq!['\n'];
                let d = depth_after(c.depth, line, '{', '}');
                if d > 0 {
                    let c2 = Capture { name: c.name, text: text, depth: d };
                    blocks_from(lines, i + 1, Some(c2), table, flagged, reserved)
                } else if reserved.contains(c.name) {
                    blocks_from(lines, i + 1, None, table, flagged, reserved)
                } else {
                    blocks_from(lines, i + 1, None, stored(table, c.name, text), flagged, reserved)
                }
            },
        }
    }
}

/// The blocks declared in `text`: the flagged function where `flagged` is
/// set, the methods otherwise.
pub open spec fn blocks(text: Seq<char>, flagged: bool, reserved: Seq<Seq<char>>) -> Seq<
    (Seq<char>, Seq<char>),
> {
    blocks_from(lines_of(text), 0, None, seq![], flagged, reserved)
}

/// No name of `a` is a name of `b`.
pub open spec fn disjoint(a: Seq<Seq<char>>, b: Seq<Seq<char>>) -> bool {
    forall|x: Seq<char>| a.contains(x) ==> !b.contains(x)
}

/// Gathers the blocks declared in `text`.
pub fn gather_blocks(text: &Vec<char>, flagged: bool, reserved: &MethodTable) -> (r: MethodTable)
    ensures
        r@ == blocks(text@, flagged, keys(reserved@)),
        r.wf(),
        disjoint(keys(r@), keys(reserved@)),
{
    let lines = split_lines(text);
    let export_fn = to_chars("export function");
    let flagged_call = to_chars("combine_dfs(");
    let ghost all = texts(lines@);
    let ghost skip = keys(reserved@);
    let mut table = MethodTable::new();
    let mut capturing = false;
    let mut name: Vec<char> = Vec::new();
    let mut body: Vec<char> = Vec::new();
    let mut depth: u128 = 0;
    let mut i: usize = 0;
    let ghost mut open: Option<Capture> = None;
    while i < lines.len()
        invariant
            i <= lines.len(),
            all == texts(lines@),
            skip == keys(reserved@),
            export_fn@ == "export function"@,
            flagged_call@ == "combine_dfs("@,
            table.wf(),
            disjoint(keys(table@), skip),
            capturing == (open is Some),
            capturing ==> name@ == open->0.name && body@ == open->0.text && depth
                == open->0.depth,
            depth <= 1 + i * LINE_MAX,
            blocks_from(all, i as int, open, table@, flagged, skip) == blocks(
                text@,
                flagged,
                skip,
            ),
        decreases lines.len() - i,
    {
        let line = &lines[i];
        assert(all[i as int] == line@);
        if !capturing {
            let t = trim(line);
            let starts = if flagged {
                has_at(&t, &export_fn, 0) && contains(&t, &flagged_call)
            } else {
                contains_char(&t, '(') && t.len() > 0 && t[t.len() - 1] == '{'
            };
            assert(starts == opens_block(flagged, line@));
            if starts {
                name = if flagged {
                    to_chars("combine_dfs")
                } else {
                    trim(&take_before(&t, '('))
                };
                body = Vec::new();
                push_line(&mut body, line);
                depth = 1;
                capturing = true;
                proof {
                    assert(body@ == line@ + seq!['\n']);
                    open = Some(
                        Capture {
                            name: block_name(flagged, line@),
                            text: line@ + seq!['\n'],
                            depth: 1,
                        },
                    );
                }
            }
        } else {
            push_line(&mut body, line);
            depth = advance(depth, line, '{', '}');
            if depth == 0 {
                capturing = false;
                if reserved.position(&name) < reserved.len() {
                    proof {
                        open = None;
                    }
                } else {
                    proof {
                        lemma_stored(table@, name@, body@);
                        crate::names::lemma_with_name_distinct(keys(table@), name@);
                        open = None;
                    }
                    let stored_name = slice(&name, 0, name.len());
                    let stored_body = slice(&body, 0, body.len());
                    assert(stored_name@ == name@);
                    assert(stored_body@ == body@);
                    table.put(stored_name, stored_body);
                }
            } else {
                proof {
                    open = Some(Capture { name: name@, text: body@, depth: depth as nat });
                }
            }
        }
        i += 1;
    }
    table
}

/// The declarations of a library section: the text before the constructor,
/// the methods of the record class by name, and the flagged top-level function.
#[derive(Debug)]
pub struct FrostFunctionSet {
    /// Everything before the constructor, as it stands.
    pub always_take: String,
    /// The methods of the record class, each under its name.
    pub dataframe_methods: MethodTable,
    /// The top-level functions that are kept only on demand.
    pub problematic_methods: MethodTable,
}

/// The name under which the body of the required method `name` is stored:
/// the per-row transformation method is stored with its type parameter.
pub open spec fn resolved_key(name: Seq<char>) -> Seq<char> {
    if name == "apply"@ {
        "apply<T>"@
    } else {
        name
    }
}

/// `header` without the body of each flagged function whose name is not
/// required.
pub open spec fn pruned_header(
    header: Seq<char>,
    flagged: Seq<(Seq<char>, Seq<char>)>,
    required: Seq<Seq<char>>,
) -> Seq<char>
    decreases flagged.len(),
{
    if flagged.len() == 0 {
        header
    } else {
        let h = pruned_header(header, flagged.drop_last(), required);
        if required.contains(flagged.last().0) {
            h
        } else {
            without(h, flagged.last().1)
        }
    }
}

/// The bodies of the first `n` required names, in their order, or the first
/// of those names that has no body. The name of a flagged function stands for
/// no method and is passed over.
pub open spec fn resolved_upto(
    methods: Seq<(Seq<char>, Seq<char>)>,
    flagged: Seq<Seq<char>>,
    required: Seq<Seq<char>>,
    n: int,
) -> Result<Seq<Seq<char>>, Seq<char>>
    decreases n,
{
    if n <= 0 {
        Ok(seq![])
    } else {
        match resolved_upto(methods, flagged, required, n - 1) {
            Err(name) => Err(name),
            Ok(bodies) => {
                let name = required[n - 1];
                if flagged.contains(name) {
                    Ok(bodies)
                } else {
                    match lookup(methods, resolved_key(name)) {
                        Some(body) => Ok(bodies.push(body)),
                        None => Err(name),
                    }
                }
            },
        }
    }
}

/// The reduced library section: the pruned header, the bodies of the required
/// methods and two closing braces, one to a line. Where a required name has
/// no body, that name.
pub open spec fn assembled(
    header: Seq<char>,
    methods: Seq<(Seq<char>, Seq<char>)>,
    flagged: Seq<(Seq<char>, Seq<char>)>,
    required: Seq<Seq<char>>,
) -> Result<Seq<char>, Seq<char>> {
    match resolved_upto(methods, keys(flagged), required, required.len() as int) {
        Err(name) => Err(name),
        Ok(bodies) => Ok(
            joined(
                seq![
                    pruned_header(header, flagged, required),
                    joined(bodies, "\n"@),
                    "}"@,
                    "}"@,
                ],
                "\n"@,
            ),
        ),
    }
}

impl FrostFunctionSet {
    /// Both tables are well formed, and no name stands in both.
    pub open spec fn wf(&self) -> bool {
        &&& self.dataframe_methods.wf()
        &&& self.problematic_methods.wf()
        &&& disjoint(keys(self.dataframe_methods@), keys(self.problematic_methods@))
    }

    /// The header without the flagged functions that are not required.
    fn prune_header(&self, required: &NameSet) -> (r: Vec<char>)
        ensures
            r@ == pruned_header(self.always_take@, self.problematic_methods@, required@),
    {
        let flagged = &self.problematic_methods;
        let mut header = to_chars(self.always_take.as_str());
        let mut i: usize = 0;
        while i < flagged.len()
            invariant
                i <= flagged@.len(),
                header@ == pruned_header(self.always_take@, flagged@.take(i as int), required@),
            decreases flagged@.len() - i,
        {
            assert(flagged@.take(i + 1).drop_last() == flagged@.take(i as int));
            assert(flagged@.take(i + 1).last() == flagged@[i as int]);
            if !required.has(flagged.name_at(i)) {
                header = remove_all(&header, flagged.body_at(i));
            }
            i += 1;
        }
        assert(flagged@.take(flagged@.len() as int) == flagged@);
        header
    }

    /// Builds the reduced library section: the header without the flagged
    /// functions that are not required, then the body of each required
    /// method in the order given, then the two closing braces. Fails with the
    /// first required name that has no body.
    pub fn compile(&self, necessary_functions: &NameSet) -> (r: Result<String, CompileError>)
        ensures
            match assembled(
                self.always_take@,
                self.dataframe_methods@,
                self.problematic_methods@,
                necessary_functions@,
            ) {
                Ok(text) => r matches Ok(out) && out@ == text,
                Err(name) => r matches Err(e) && e@ == Failure::LookupFailure(name),
            },
    {
        let required = necessary_functions;
        let header = self.prune_header(required);
        let apply = to_chars("apply");
        let apply_t = to_chars("apply<T>");
        let ghost methods = self.dataframe_methods@;
        let ghost flagged = keys(self.problematic_methods@);
        let mut bodies: Vec<Vec<char>> = Vec::new();
        let mut i: usize = 0;
        assert(texts(bodies@) =~= Seq::<Seq<char>>::empty());
        while i < required.len()
            invariant
                i <= required@.len(),
                required == necessary_functions,
                apply@ == "apply"@,
                apply_t@ == "apply<T>"@,
                methods == self.dataframe_methods@,
                flagged == keys(self.problematic_methods@),
                resolved_upto(methods, flagged, required@, i as int) == Ok::<
                    Seq<Seq<char>>,
                    Seq<char>,
                >(texts(bodies@)),
            decreases required@.len() - i,
        {
            let name = required.at(i);
            if self.problematic_methods.position(name) >= self.problematic_methods.len() {
                let key: &Vec<char> = if same(name, &apply) {
                    &apply_t
                } else {
                    name
                };
                assert(key@ == resolved_key(name@));
                match self.dataframe_methods.find(key) {
                    Some(body) => {
                        let copy = slice(body, 0, body.len());
                        assert(copy@ == body@);
                        proof {
                            crate::split::lemma_texts_push(bodies@, copy);
                        }
                        bodies.push(copy);
                    },
                    None => {
                        proof {
                            assert(!flagged.contains(name@));
                            assert(lookup(methods, resolved_key(name@)) is None);
                            assert(resolved_upto(methods, flagged, required@, i + 1) == Err::<
                                Seq<Seq<char>>,
                                Seq<char>,
                            >(name@));
                            lemma_resolved_failure(methods, flagged, required@, i + 1);
                            assert(assembled(
                                self.always_take@,
                                self.dataframe_methods@,
                                self.problematic_methods@,
                                required@,
                            ) == Err::<Seq<char>, Seq<char>>(name@));
                        }
                        let missing = to_string(name);
                        assert(missing@ == name@);
                        return Err(CompileError::LookupFailure(missing));
                    },
                }
            }
            i += 1;
        }
        let mut sep: Vec<char> = Vec::new();
        sep.push('\n');
        assert(sep@ == seq!['\n']);
        proof {
            reveal_strlit("\n");
            reveal_strlit("}");
            assert("\n"@ =~= seq!['\n']);
        }
        let method_text = join(&bodies, &sep);
        let mut brace: Vec<char> = Vec::new();
        brace.push('}');
        assert(brace@ =~= "}"@);
        let mut brace2: Vec<char> = Vec::new();
        brace2.push('}');
        assert(brace2@ =~= "}"@);
        let mut parts: Vec<Vec<char>> = Vec::new();
        parts.push(header);
        parts.push(method_text);
        parts.push(brace);
        parts.push(brace2);
        assert(texts(parts@) =~= seq![
            pruned_header(self.always_take@, self.problematic_methods@, required@),
            joined(texts(bodies@), "\n"@),
            "}"@,
            "}"@,
        ]);
        let out = join(&parts, &sep);
        Ok(to_string(&out))
    }
}

/// Once a required name has no body, the failure stands whatever follows.
pub proof fn lemma_resolved_failure(
    methods: Seq<(Seq<char>, Seq<char>)>,
    flagged: Seq<Seq<char>>,
    required: Seq<Seq<char>>,
    n: int,
)
    requires
        0 <= n <= required.len(),
        resolved_upto(methods, flagged, required, n) is Err,
    ensures
        resolved_upto(methods, flagged, required, required.len() as int) == resolved_upto(
            methods,
            flagged,
            required,
            n,
        ),
    decreases required.len() - n,
{
    if n < required.len() {
        assert(resolved_upto(methods, flagged, required, n + 1) == resolved_upto(
            methods,
            flagged,
            required,
            n,
        ));
        lemma_resolved_failure(methods, flagged, required, n + 1);
    }
}

impl FrostSource {
    /// Reads the declarations of the library section. The section is cut at
    /// the first occurrence of the constructor word: what stands before it is
    /// kept as it is and searched for the flagged function; what stands from
    /// there on is searched for methods. A method whose name the flagged
    /// function already bears is left out. Fails where the section holds no
    /// constructor.
    pub fn extract_function_set(&self) -> (r: Result<FrostFunctionSet, CompileError>)
        ensures
            match r {
                Ok(fs) => match first_at(self.fr@, constructor_word()) {
                    Some(p) => {
                        &&& fs.always_take@ == self.fr@.subrange(0, p)
                        &&& fs.problematic_methods@ == blocks(self.fr@.subrange(0, p), true, seq![])
                        &&& fs.dataframe_methods@ == blocks(
                            self.fr@.subrange(p, self.fr@.len() as int),
                            false,
                            keys(fs.problematic_methods@),
                        )
                        &&& fs.wf()
                    },
                    None => false,
                },
                Err(e) => first_at(self.fr@, constructor_word()) is None
                    && e is MissingConstructor,
            },
    {
        let fr = to_chars(self.fr.as_str());
        let word = to_chars("constructor");
        match find(&fr, &word) {
            None => Err(CompileError::MissingConstructor),
            Some(p) => {
                proof {
                    crate::text::lemma_first_at_from(fr@, word@, 0);
                }
                let before = slice(&fr, 0, p);
                let onward = slice(&fr, p, fr.len());
                let nothing = MethodTable::new();
                let problematic = gather_blocks(&before, true, &nothing);
                assert(keys(nothing@) =~= Seq::<Seq<char>>::empty());
                let methods = gather_blocks(&onward, false, &problematic);
                Ok(
                    FrostFunctionSet {
                        always_take: to_string(&before),
                        dataframe_methods: methods,
                        problematic_methods: problematic,
                    },
                )
            },
        }
    }
}

} // verus!
