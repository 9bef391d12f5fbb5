use file_flier::config::{
    chart_type_named, sort_type_named, ChartType, Config, ConfigError, Notice, SortDirection,
    SortType,
};

fn args(list: &[&str]) -> Vec<String> {
    list.iter().map(|s| s.to_string()).collect()
}

fn parse(list: &[&str], home: Option<&str>) -> Result<(Config, Vec<Notice>), ConfigError> {
    Config::new(args(list), home.map(|h| h.to_string()))
}

fn ok(list: &[&str], home: Option<&str>) -> (Config, Vec<Notice>) {
    match parse(list, home) {
        Ok(r) => r,
        Err(e) => panic!("expected settings, got {:?}", e),
    }
}

fn help_notices(list: &[&str]) -> Vec<Notice> {
    match parse(list, None) {
        Ok((c, _)) => panic!("expected a help request, got {:?}", c),
        Err(ConfigError::HelpRequested { notices }) => notices,
    }
}

#[test]
fn no_arguments_give_the_defaults() {
    let (c, n) = ok(&[], Some("/home/u"));
    assert_eq!(c.path, "./");
    assert_eq!(c.chart_type, ChartType::Pie);
    assert_eq!(c.sort_type, SortType::Natural(SortDirection::Up));
    assert!(n.is_empty());
}

#[test]
fn help_flags_request_help() {
    assert!(help_notices(&["--help"]).is_empty());
    assert!(help_notices(&["-h"]).is_empty());
    assert!(help_notices(&["--path=/tmp", "--help"]).is_empty());
}

#[test]
fn dash_h_anywhere_requests_help() {
    assert!(help_notices(&["--path=/tmp/my-home"]).is_empty());
}

#[test]
fn path_option_sets_the_path() {
    let (c, _) = ok(&["--path=/var/log"], None);
    assert_eq!(c.path, "/var/log");
    let (c, _) = ok(&["-p=/srv"], None);
    assert_eq!(c.path, "/srv");
    let (c, _) = ok(&["p=/opt"], None);
    assert_eq!(c.path, "/opt");
}

#[test]
fn tilde_stands_for_the_home_directory() {
    let (c, _) = ok(&["--path=~/docs"], Some("/home/u"));
    assert_eq!(c.path, "/home/u/docs");
    let (c, _) = ok(&["--path=~/docs"], None);
    assert_eq!(c.path, "~/docs");
}

#[test]
fn sort_names_are_read_in_any_case() {
    let (c, n) = ok(&["--sort=SIZE"], None);
    assert_eq!(c.sort_type, SortType::Size(SortDirection::Down));
    assert!(n.is_empty());
    let (c, _) = ok(&["-s=Alphabetical"], None);
    assert_eq!(c.sort_type, SortType::Alphabetical(SortDirection::Up));
    let (c, _) = ok(&["--sort=modification"], None);
    assert_eq!(c.sort_type, SortType::Modification(SortDirection::Up));
    let (c, n) = ok(&["--sort=size", "--sort=natural"], None);
    assert_eq!(c.sort_type, SortType::Natural(SortDirection::Up));
    assert!(n.is_empty());
}

#[test]
fn unknown_sort_name_falls_back_with_a_notice() {
    let (c, n) = ok(&["--sort=size", "--sort=random"], None);
    assert_eq!(c.sort_type, SortType::Natural(SortDirection::Up));
    assert_eq!(n, vec![Notice::UnknownSortType]);
}

#[test]
fn chart_option_sets_the_chart() {
    let (c, n) = ok(&["--chart=Circle"], None);
    assert_eq!(c.chart_type, ChartType::Circle);
    assert!(n.is_empty());
    let (c, _) = ok(&["-c=colomns"], None);
    assert_eq!(c.chart_type, ChartType::Colomns);
    let (c, n) = ok(&["--chart=circle", "--chart=bars"], None);
    assert_eq!(c.chart_type, ChartType::Pie);
    assert_eq!(n, vec![Notice::UnknownChartType]);
}

#[test]
fn later_options_override_earlier_ones() {
    let (c, _) = ok(&["--sort=size", "--path=/a", "--sort=alphabetical", "--path=/b"], None);
    assert_eq!(c.sort_type, SortType::Alphabetical(SortDirection::Up));
    assert_eq!(c.path, "/b");
}

#[test]
fn words_without_equals_are_ignored() {
    let (c, n) = ok(&["verbose", "--path=/a", "x"], None);
    assert_eq!(c.path, "/a");
    assert!(n.is_empty());
}

#[test]
fn value_ends_at_a_second_equals() {
    let (c, _) = ok(&["--path=/a=b"], None);
    assert_eq!(c.path, "/a");
}

#[test]
fn arguments_are_split_at_whitespace() {
    let (c, _) = ok(&["--path=/a   --sort=size\t"], None);
    assert_eq!(c.path, "/a");
    assert_eq!(c.sort_type, SortType::Size(SortDirection::Down));
}

#[test]
fn dashes_in_option_names_are_ignored() {
    let (c, _) = ok(&["s-o-r-t=size"], None);
    assert_eq!(c.sort_type, SortType::Size(SortDirection::Down));
}

#[test]
fn unknown_option_requests_help_after_earlier_notices() {
    let n = help_notices(&["--chart=bars", "--sort=nope", "--colour=red", "--sort=also"]);
    assert_eq!(n, vec![Notice::UnknownChartType, Notice::UnknownSortType]);
}

#[test]
fn named_types_need_lower_case() {
    assert_eq!(chart_type_named("pie"), Some(ChartType::Pie));
    assert_eq!(chart_type_named("colomns"), Some(ChartType::Colomns));
    assert_eq!(chart_type_named("circle"), Some(ChartType::Circle));
    assert_eq!(chart_type_named("Pie"), None);
    assert_eq!(sort_type_named("size"), Some(SortType::Size(SortDirection::Down)));
    assert_eq!(sort_type_named("alphabetical"), Some(SortType::Alphabetical(SortDirection::Up)));
    assert_eq!(sort_type_named("modification"), Some(SortType::Modification(SortDirection::Up)));
    assert_eq!(sort_type_named("natural"), Some(SortType::Natural(SortDirection::Up)));
    assert_eq!(sort_type_named("Size"), None);
    assert_eq!(sort_type_named(""), None);
}

fn outcome(list: &[&str]) -> String {
    match parse(list, Some("/home/u")) {
        Ok((c, n)) => format!("ok {} {:?} {:?} {:?}", c.path, c.chart_type, c.sort_type, n),
        Err(ConfigError::HelpRequested { notices }) => format!("help {:?}", notices),
    }
}

#[test]
fn plain_argument_at_the_end_changes_nothing() {
    let cases: Vec<Vec<&str>> = vec![
        vec![],
        vec!["--path=~/a", "--sort=size"],
        vec!["--chart=bars"],
        vec!["--colour=red"],
        vec!["--help"],
        vec!["p=/x", "loose words"],
    ];
    for plain in ["verbose", "two words", "", " x\u{3000}y ", "-p", "--"] {
        for case in &cases {
            let mut longer = case.clone();
            longer.push(plain);
            assert_eq!(outcome(&longer), outcome(case), "{:?} + {:?}", case, plain);
        }
    }
}
