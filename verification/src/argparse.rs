//! Matching of command-line arguments against the arguments a program
//! declares.
//!
//! A parser holds the declared arguments, each with a short and a long
//! flag and the number of parameters it takes.  Parsing goes step by step:
//! a step looks at one position of the argument list and says which
//! declared argument is to be handled with which parameters, or what is
//! wrong; the caller handles it and says where to go on.

use vstd::prelude::*;

verus! {

/// Flag of an argument that must be given.
pub const ARGDEF_REQUIRED: u32 = 1;

/// Flag of an argument that takes all the parameters that follow.
pub const ARGDEF_VARARGS: u32 = 2;

/// No flag.
pub const ARGDEF_DEFAULT: u32 = 0;

/// Argument Group, currently used for help message.
///
/// Opaque data representing a group of arguments.
#[derive(PartialEq, Eq, Structural, Debug, Copy, Clone)]
pub struct ArgGroup(usize);

impl ArgGroup {
    /// Position of the group among the groups of its parser.
    pub closed spec fn spec_index(self) -> usize {
        self.0
    }

    /// Position of the group among the groups of its parser.
    #[verifier::when_used_as_spec(spec_index)]
    pub fn index(self) -> (i: usize)
        ensures
            i == self.spec_index(),
    {
        self.0
    }
}

/// Name and description of a group of arguments.
pub struct ArgGroupData {
    pub name: String,
    pub descr: String,
}

/// A declared argument.
pub struct ArgumentDef {
    /// Short flag name (single dash), may be empty.
    pub id_short: String,
    /// Long flag name (double dash), may be empty.
    pub id_long: String,
    /// Name of the parameters in the help text.
    pub metavar: String,
    /// Description in the help text.
    pub descr: String,
    /// Number of parameters, ignored when `ARGDEF_VARARGS` is set.
    pub nparams: usize,
    /// `ARGDEF_*` flags.
    pub flag: u32,
    /// The group the argument is listed under.
    pub group: Option<ArgGroup>,
}

/// The declared arguments of a program.
pub struct ArgumentParser {
    arg_handlers: Vec<ArgumentDef>,
    arg_groups: Vec<ArgGroupData>,
    descr: String,
}

/// What a step of parsing found at a position of the argument list.
#[derive(PartialEq, Eq, Structural, Debug, Copy, Clone)]
pub enum ParseStep {
    /// The list is at its end and every required argument was given.
    Done,
    /// Declared argument `handler` is to be handled with the `count`
    /// arguments from position `first` on as its parameters.
    Call { handler: usize, first: usize, count: usize },
    /// The argument at position `arg` is no declared flag.
    UnknownParameter { arg: usize },
    /// The flag at position `arg` is followed by `received` arguments where
    /// it takes `expected`.
    MissingParameters { arg: usize, expected: usize, received: usize },
    /// The list is at its end and required argument `handler` was not
    /// given.
    RequiredNotGiven { handler: usize },
}

/// Whether `arg` is the short or the long flag of `def`.
pub open spec fn is_flag_of(def: ArgumentDef, arg: Seq<char>) -> bool {
    def.id_short@ == arg || def.id_long@ == arg
}

/// Whether `def` must be given.
pub open spec fn is_required(def: ArgumentDef) -> bool {
    (def.flag & ARGDEF_REQUIRED) != 0
}

/// Whether `def` takes all the parameters that follow.
pub open spec fn is_varargs(def: ArgumentDef) -> bool {
    (def.flag & ARGDEF_VARARGS) != 0
}

/// Whether `h` is the first declared argument that has `arg` as a flag.
pub open spec fn is_handler_of(handlers: Seq<ArgumentDef>, arg: Seq<char>, h: int) -> bool {
    &&& 0 <= h < handlers.len()
    &&& is_flag_of(handlers[h], arg)
    &&& forall|j: int| 0 <= j < h ==> !is_flag_of(#[trigger] handlers[j], arg)
}

/// Whether `h` is the first required argument that was not given.
pub open spec fn is_first_missing(handlers: Seq<ArgumentDef>, used: Seq<bool>, h: int) -> bool {
    &&& 0 <= h < handlers.len()
    &&& is_required(handlers[h])
    &&& !used[h]
    &&& forall|j: int| 0 <= j < h ==> !(is_required(#[trigger] handlers[j]) && !used[j])
}

impl ArgumentParser {
    /// The declared arguments, in the order they were declared.
    pub closed spec fn spec_handlers(&self) -> Seq<ArgumentDef> {
        self.arg_handlers@
    }

    /// The groups, in the order they were added.
    pub closed spec fn spec_groups(&self) -> Seq<ArgGroupData> {
        self.arg_groups@
    }

    /// The description of the program.
    pub closed spec fn spec_descr(&self) -> String {
        self.descr
    }

    /// A parser without arguments, described by `descr` in the help text.
    pub fn new(descr: String) -> (parser: ArgumentParser)
        ensures
            parser.spec_handlers() == Seq::<ArgumentDef>::empty(),
            parser.spec_groups() == Seq::<ArgGroupData>::empty(),
            parser.spec_descr() == descr,
    {
        ArgumentParser { arg_handlers: Vec::new(), arg_groups: Vec::new(), descr: descr }
    }

    /// The declared arguments.
    pub fn arg_handlers(&self) -> (handlers: &Vec<ArgumentDef>)
        ensures
            handlers@ == self.spec_handlers(),
    {
        &self.arg_handlers
    }

    /// The groups.
    pub fn arg_groups(&self) -> (groups: &Vec<ArgGroupData>)
        ensures
            groups@ == self.spec_groups(),
    {
        &self.arg_groups
    }

    /// The description of the program.
    pub fn descr(&self) -> (descr: &String)
        ensures
            *descr == self.spec_descr(),
    {
        &self.descr
    }

    /// Add a group that arguments can be listed under.
    pub fn add_argument_group(&mut self, name: String, descr: String) -> (group: ArgGroup)
        ensures
            group.spec_index() == old(self).spec_groups().len(),
            final(self).spec_groups() == old(self).spec_groups().push(
                ArgGroupData { name: name, descr: descr },
            ),
            final(self).spec_handlers() == old(self).spec_handlers(),
            final(self).spec_descr() == old(self).spec_descr(),
    {
        let arg_group_handle = ArgGroup(self.arg_groups.len());
        self.arg_groups.push(ArgGroupData { name: name, descr: descr });
        arg_group_handle
    }

    /// Add a new argument definition.
    ///
    /// * `id_short` - Short flag name (single dash).
    /// * `id_long` - Long flag name (double dash).
    ///
    /// Note that these can be empty strings, but one must be non-empty.
    ///
    /// * `metavar` - Argument description for the help text,
    ///   typical usage includes NUMBER/FILE/DIR... etc.
    ///   Can also be blank.
    /// * `descr` - General description for the help text.
    /// * `nparams`- Number of params, zero when the `ARGDEF_VARARGS` flag is set.
    /// * `flag` - `ARGDEF_*` flags.
    /// * `group` - A group of this parser, if any.
    pub fn add_argument(
        &mut self,
        id_short: String,
        id_long: String,
        descr: String,
        metavar: String,
        nparams: usize,
        flag: u32,
        group: Option<ArgGroup>,
    )
        requires
            id_short@.len() != 0 || id_long@.len() != 0,
            (flag & ARGDEF_VARARGS) != 0 ==> nparams == 0,
            group matches Some(g) ==> g.spec_index() < old(self).spec_groups().len(),
        ensures
            final(self).spec_handlers() == old(self).spec_handlers().push(
                ArgumentDef {
                    id_short: id_short,
                    id_long: id_long,
                    metavar: metavar,
                    descr: descr,
                    nparams: nparams,
                    flag: flag,
                    group: group,
                },
            ),
            final(self).spec_groups() == old(self).spec_groups(),
            final(self).spec_descr() == old(self).spec_descr(),
    {
        self.arg_handlers.push(
            ArgumentDef {
                id_short: id_short,
                id_long: id_long,
                metavar: metavar,
                descr: descr,
                nparams: nparams,
                flag: flag,
                group: group,
            },
        );
    }

    /// The first declared argument that has `arg` as its short or long flag.
    pub fn arg_handler_search(&self, arg: &String) -> (r: Option<usize>)
        ensures
            r matches Some(h) ==> is_handler_of(self.spec_handlers(), arg@, h as int),
            r is None ==> forall|j: int|
                0 <= j < self.spec_handlers().len() ==> !is_flag_of(
                    #[trigger] self.spec_handlers()[j],
                    arg@,
                ),
    {
        let mut i: usize = 0;
        while i < self.arg_handlers.len()
            invariant
                i <= self.arg_handlers@.len(),
                forall|j: int| 0 <= j < i ==> !is_flag_of(#[trigger] self.arg_handlers@[j], arg@),
            decreases self.arg_handlers@.len() - i,
        {
            let arg_handler = &self.arg_handlers[i];
            if arg_handler.id_short == *arg || arg_handler.id_long == *arg {
                return Some(i);
            }
            i += 1;
        }
        None
    }

    /// One step of parsing `args`, at position `i`.  `arg_handlers_used`
    /// says for each declared argument whether it was given before `i`; the
    /// step marks the argument it finds.
    ///
    /// At the end of the list the step says whether every required argument
    /// was given.  Before it, the argument at `i` must be a declared flag
    /// with as many arguments after it as it takes parameters (all that
    /// follow, for an argument with `ARGDEF_VARARGS`); these are handed to
    /// the caller, who handles them and goes on after those it used.
    pub fn parse(&self, args: &Vec<String>, i: usize, arg_handlers_used: &mut Vec<bool>) -> (step:
        ParseStep)
        requires
            old(arg_handlers_used)@.len() == self.spec_handlers().len(),
            i <= args@.len(),
        ensures
            final(arg_handlers_used)@.len() == old(arg_handlers_used)@.len(),
            i == args@.len() ==> {
                &&& final(arg_handlers_used)@ == old(arg_handlers_used)@
                &&& match step {
                    ParseStep::Done => forall|j: int|
                        0 <= j < self.spec_handlers().len() ==> !(is_required(
                            #[trigger] self.spec_handlers()[j],
                        ) && !old(arg_handlers_used)@[j]),
                    ParseStep::RequiredNotGiven { handler } => is_first_missing(
                        self.spec_handlers(),
                        old(arg_handlers_used)@,
                        handler as int,
                    ),
                    _ => false,
                }
            },
            i < args@.len() ==> match step {
                ParseStep::UnknownParameter { arg } => {
                    &&& arg == i
                    &&& final(arg_handlers_used)@ == old(arg_handlers_used)@
                    &&& forall|j: int|
                        0 <= j < self.spec_handlers().len() ==> !is_flag_of(
                            #[trigger] self.spec_handlers()[j],
                            args@[i as int]@,
                        )
                },
                ParseStep::MissingParameters { arg, expected, received } => {
                    &&& arg == i
                    &&& exists|h: int|
                        {
                            &&& is_handler_of(self.spec_handlers(), args@[i as int]@, h)
                            &&& !is_varargs(self.spec_handlers()[h])
                            &&& expected == self.spec_handlers()[h].nparams
                            &&& final(arg_handlers_used)@ == old(arg_handlers_used)@.update(h, true)
                        }
                    &&& received == args@.len() - (i + 1)
                    &&& received < expected
                },
                ParseStep::Call { handler, first, count } => {
                    &&& is_handler_of(self.spec_handlers(), args@[i as int]@, handler as int)
                    &&& final(arg_handlers_used)@ == old(arg_handlers_used)@.update(
                        handler as int,
                        true,
                    )
                    &&& first == i + 1
                    &&& first + count <= args@.len()
                    &&& count == (if is_varargs(self.spec_handlers()[handler as int]) {
                        args@.len() - first
                    } else {
                        self.spec_handlers()[handler as int].nparams as int
                    })
                },
                _ => false,
            },
    {
        if i < args.len() {
            if let Some(arg_handler_index) = self.arg_handler_search(&args[i]) {
                let arg_handler = &self.arg_handlers[arg_handler_index];
                arg_handlers_used[arg_handler_index] = true;

                let first = i + 1;
                let received = args.len() - first;
                if (arg_handler.flag & ARGDEF_VARARGS) != 0 {
                    ParseStep::Call { handler: arg_handler_index, first: first, count: received }
                } else {
                    if received < arg_handler.nparams {
                        return ParseStep::MissingParameters {
                            arg: i,
                            expected: arg_handler.nparams,
                            received: received,
                        };
                    }
                    ParseStep::Call {
                        handler: arg_handler_index,
                        first: first,
                        count: arg_handler.nparams,
                    }
                }
            } else {
                ParseStep::UnknownParameter { arg: i }
            }
        } else {
            // check all required args were used
            let mut k: usize = 0;
            while k < self.arg_handlers.len()
                invariant
                    i == args@.len(),
                    k <= self.arg_handlers@.len(),
                    arg_handlers_used@.len() == self.arg_handlers@.len(),
                    arg_handlers_used@ == old(arg_handlers_used)@,
                    forall|j: int|
                        0 <= j < k ==> !(is_required(#[trigger] self.arg_handlers@[j])
                            && !arg_handlers_used@[j]),
                decreases self.arg_handlers@.len() - k,
            {
                let arg_handler = &self.arg_handlers[k];
                if (arg_handler.flag & ARGDEF_REQUIRED) != 0 && (arg_handlers_used[k] == false) {
                    return ParseStep::RequiredNotGiven { handler: k };
                }
                k += 1;
            }
            ParseStep::Done
        }
    }
}

} // verus!
