use xioioi::db::{problem_dir, problem_zip, search_order, search_text, Order};

#[test]
fn order_by_name_only_when_asked() {
    assert_eq!(search_order(Some("name")), Order::Name);
    assert_eq!(search_order(Some("id")), Order::Id);
    assert_eq!(search_order(Some("Name")), Order::Id);
    assert_eq!(search_order(None), Order::Id);
}

#[test]
fn problem_files_lie_under_data() {
    assert_eq!(problem_dir("sum#741cf79"), "data/problems/sum#741cf79");
    assert_eq!(problem_dir(""), "data/problems/");
    assert_eq!(problem_dir("/elsewhere"), "/elsewhere");
    assert_eq!(problem_zip("sum#741cf79"), "data/problems/sum#741cf79.zip");
}

#[test]
fn search_text_is_trimmed() {
    assert_eq!(search_text("  sum \t\n"), "sum");
    assert_eq!(search_text("\u{3000}a b\u{a0}"), "a b");
    assert_eq!(search_text("   "), "");
}
