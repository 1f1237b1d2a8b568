use raster_retrace::argparse::{
    ArgumentParser, ParseStep, ARGDEF_DEFAULT, ARGDEF_REQUIRED, ARGDEF_VARARGS,
};

fn s(text: &str) -> String {
    String::from(text)
}

fn args(list: &[&str]) -> Vec<String> {
    list.iter().map(|a| String::from(*a)).collect()
}

fn parser() -> ArgumentParser {
    let mut parser = ArgumentParser::new(s("A program"));
    let files = parser.add_argument_group(s("File Options"), s(""));
    let other = parser.add_argument_group(s("Other"), s("The rest"));
    assert_eq!(files.index(), 0);
    assert_eq!(other.index(), 1);
    parser.add_argument(s("-i"), s("--input"), s("Input"), s("FILE"), 1, ARGDEF_REQUIRED, Some(files));
    parser.add_argument(s("-s"), s("--size"), s("Size"), s("W H"), 2, ARGDEF_DEFAULT, Some(other));
    parser.add_argument(s(""), s("--rest"), s("All that follows"), s(""), 0, ARGDEF_VARARGS, None);
    parser.add_argument(s("-h"), s("--help"), s("Help"), s(""), 0, ARGDEF_DEFAULT, None);
    parser
}

#[test]
fn argparse_declares_arguments() {
    let parser = parser();
    assert_eq!(parser.descr(), "A program");
    assert_eq!(parser.arg_groups().len(), 2);
    assert_eq!(parser.arg_groups()[1].name, "Other");
    assert_eq!(parser.arg_groups()[1].descr, "The rest");
    let handlers = parser.arg_handlers();
    assert_eq!(handlers.len(), 4);
    assert_eq!(handlers[1].id_short, "-s");
    assert_eq!(handlers[1].id_long, "--size");
    assert_eq!(handlers[1].metavar, "W H");
    assert_eq!(handlers[1].descr, "Size");
    assert_eq!(handlers[1].nparams, 2);
    assert_eq!(handlers[0].flag, ARGDEF_REQUIRED);
    assert_eq!(handlers[0].group.map(|g| g.index()), Some(0));
    assert_eq!(handlers[3].group, None);
}

#[test]
fn argparse_finds_flags() {
    let parser = parser();
    assert_eq!(parser.arg_handler_search(&s("-i")), Some(0));
    assert_eq!(parser.arg_handler_search(&s("--input")), Some(0));
    assert_eq!(parser.arg_handler_search(&s("--size")), Some(1));
    assert_eq!(parser.arg_handler_search(&s("-h")), Some(3));
    assert_eq!(parser.arg_handler_search(&s("-x")), None);
    assert_eq!(parser.arg_handler_search(&s("input")), None);
    // an empty flag names the first argument without a short flag
    assert_eq!(parser.arg_handler_search(&s("")), Some(2));
}

#[test]
fn argparse_steps_through_arguments() {
    let parser = parser();
    let list = args(&["-s", "3", "4", "--input", "a.ppm", "-h"]);
    let mut used = vec![false; 4];
    assert_eq!(parser.parse(&list, 0, &mut used), ParseStep::Call { handler: 1, first: 1, count: 2 });
    assert_eq!(used, vec![false, true, false, false]);
    assert_eq!(parser.parse(&list, 3, &mut used), ParseStep::Call { handler: 0, first: 4, count: 1 });
    assert_eq!(parser.parse(&list, 5, &mut used), ParseStep::Call { handler: 3, first: 6, count: 0 });
    assert_eq!(used, vec![true, true, false, true]);
    assert_eq!(parser.parse(&list, 6, &mut used), ParseStep::Done);
}

#[test]
fn argparse_varargs_take_the_rest() {
    let parser = parser();
    let list = args(&["--rest", "a", "-i", "b"]);
    let mut used = vec![false; 4];
    assert_eq!(parser.parse(&list, 0, &mut used), ParseStep::Call { handler: 2, first: 1, count: 3 });
    let list = args(&["--rest"]);
    assert_eq!(parser.parse(&list, 0, &mut used), ParseStep::Call { handler: 2, first: 1, count: 0 });
}

#[test]
fn argparse_reports_what_is_wrong() {
    let parser = parser();
    let mut used = vec![false; 4];
    let list = args(&["-i", "a.ppm", "--wrong"]);
    assert_eq!(parser.parse(&list, 2, &mut used), ParseStep::UnknownParameter { arg: 2 });
    assert_eq!(parser.parse(&list, 1, &mut used), ParseStep::UnknownParameter { arg: 1 });
    assert_eq!(used, vec![false; 4]);
    let list = args(&["--size", "3"]);
    assert_eq!(
        parser.parse(&list, 0, &mut used),
        ParseStep::MissingParameters { arg: 0, expected: 2, received: 1 }
    );
    let list = args(&["-i"]);
    assert_eq!(
        parser.parse(&list, 0, &mut used),
        ParseStep::MissingParameters { arg: 0, expected: 1, received: 0 }
    );
    // at the end of the list: the required argument was never handled
    let list = args(&["-h"]);
    let mut used = vec![false, false, false, true];
    assert_eq!(parser.parse(&list, 1, &mut used), ParseStep::RequiredNotGiven { handler: 0 });
    let none: Vec<String> = vec![];
    assert_eq!(parser.parse(&none, 0, &mut used), ParseStep::RequiredNotGiven { handler: 0 });
    let empty = ArgumentParser::new(s(""));
    let mut used = vec![];
    assert_eq!(empty.parse(&none, 0, &mut used), ParseStep::Done);
    assert_eq!(empty.parse(&list, 0, &mut used), ParseStep::UnknownParameter { arg: 0 });
}
