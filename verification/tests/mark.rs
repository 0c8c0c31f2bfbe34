use monitorzinho::monitor::mark::{
    has_number, is_pattern, matches_text, Mark, MarkColor, MarkKind, Marks,
};
use monitorzinho::monitor::TableRow;

fn row(cells: &[&str]) -> TableRow {
    TableRow::leaf(cells.iter().map(|c| c.to_string()).collect(), 0)
}

const KINDS: &[MarkKind] = &[
    MarkKind {
        name: "comando",
        column: 0,
        numeric: false,
        help: "",
    },
    MarkKind {
        name: "porta",
        column: 1,
        numeric: true,
        help: "",
    },
];

fn watching(kind: &str, value: &str) -> Mark<String> {
    Mark {
        table: "t".into(),
        kind: kind.into(),
        value: value.into(),
        subtree: false,
        color: MarkColor::Amarelo,
    }
}

#[test]
fn text_marks_are_substrings_unless_they_look_like_patterns() {
    let mark = watching("comando", "rootlesskit");
    assert!(mark.matches("t", KINDS, &row(&["rootlesskit --state-dir=/run", "0"])));
    assert!(!mark.matches("t", KINDS, &row(&["dockerd", "0"])));
    assert!(!mark.matches("outra", KINDS, &row(&["rootlesskit", "0"])));

    let pattern = watching("comando", "^ssh(d)?$");
    assert!(pattern.matches("t", KINDS, &row(&["sshd", "0"])));
    assert!(!pattern.matches("t", KINDS, &row(&["ssh-agent", "0"])));
}

#[test]
fn a_port_is_a_number_and_not_a_substring() {
    let mark = watching("porta", "443");
    assert!(mark.matches("t", KINDS, &row(&["nginx", "443"])));
    assert!(!mark.matches("t", KINDS, &row(&["nginx", "4433"])));
    assert!(mark.matches("t", KINDS, &row(&["nginx", "10.0.0.5:443 → 1.1.1.1:80"])));
}

#[test]
fn a_subtree_mark_reaches_the_children() {
    let mut marks = Marks::none();
    let mut make = watching("comando", "make");
    make.subtree = true;
    make.color = MarkColor::Verde;
    marks.all.push(make);
    let mut parent = row(&["make -j8", "0"]);
    parent.pid = 10;
    parent.descendant_pids = vec![11, 12];
    let mut child = row(&["cc1plus", "0"]);
    child.pid = 11;
    let mut stranger = row(&["firefox", "0"]);
    stranger.pid = 99;

    let mut rows = vec![parent, child, stranger];
    marks.apply("t", KINDS, &mut rows);
    assert_eq!(rows[0].mark, Some(MarkColor::Verde), "o próprio processo");
    assert_eq!(rows[1].mark, Some(MarkColor::Verde), "o filho, por herança");
    assert_eq!(rows[2].mark, None, "quem não tem nada a ver");
}

#[test]
fn each_mark_keeps_its_own_colour() {
    let mut marks = Marks::none();
    let mut green = watching("comando", "postgres");
    green.color = MarkColor::Verde;
    let mut red = watching("comando", "firefox");
    red.color = MarkColor::Vermelho;
    marks.add(green);
    marks.add(red);

    let mut rows = vec![row(&["postgres -D /var", "0"]), row(&["firefox", "0"])];
    marks.apply("t", KINDS, &mut rows);
    assert_eq!(rows[0].mark, Some(MarkColor::Verde));
    assert_eq!(rows[1].mark, Some(MarkColor::Vermelho));
}

#[test]
fn editing_a_mark_in_place_keeps_it_where_it_was() {
    let mut marks = Marks::none();
    marks.all.push(watching("comando", "a"));
    marks.all.push(watching("comando", "b"));
    marks.all.push(watching("comando", "c"));

    let mut edited = watching("comando", "c");
    edited.color = MarkColor::Azul;
    marks.replace(1, edited);
    assert_eq!(marks.all().len(), 2);
    assert_eq!(marks.all()[1].value, "c");
    assert_eq!(marks.all()[1].color, MarkColor::Azul);
    assert_eq!(marks.all()[0].value, "a");
}

#[test]
fn a_pattern_that_does_not_compile_is_searched_as_text() {
    assert!(is_pattern("foo["));
    assert!(matches_text("a foo[ b", "foo["));
    assert!(!matches_text("a foo b", "foo["));
}

#[test]
fn text_is_found_whatever_its_case() {
    assert!(!is_pattern("Ação"));
    assert!(matches_text("uma AÇÃO da bolsa", "ação"));
    assert!(!matches_text("uma acao", "ação"));
}

#[test]
fn a_number_is_a_whole_number_of_the_cell() {
    assert!(has_number("10.0.0.5:443", "443"));
    assert!(!has_number("10.0.0.5:4430", "443"));
    assert!(!has_number("", "443"));
}

#[test]
fn the_colours_go_round() {
    let mut c = MarkColor::Amarelo;
    for _ in 0..MarkColor::ALL.len() {
        c = c.cycled(1);
    }
    assert_eq!(c, MarkColor::Amarelo);
    assert_eq!(c.cycled(1).cycled(-1), c);
}

#[test]
fn marking_the_same_subject_twice_keeps_one_mark() {
    let mut marks = Marks::none();
    marks.add(watching("comando", "a"));
    let mut other = watching("comando", "a");
    other.color = MarkColor::Azul;
    marks.add(other);
    assert_eq!(marks.all().len(), 1);
    assert_eq!(marks.all()[0].color, MarkColor::Azul);
    assert!(marks.remove_matching("t", KINDS, &row(&["a", "0"])));
    assert!(!marks.remove_matching("t", KINDS, &row(&["a", "0"])));
    assert!(marks.all().is_empty());
}
