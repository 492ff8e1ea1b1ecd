use jch::jsonpath::JsonPath;
use jch::jsonpath::Step;
use jch::jsonpath::append_step;
use jch::sender::NonWrap;
use jch::sendpath::SendPath;
use jch::sendpath::canonicalize;
use jch::shredder::filename_of_path;

#[test]
fn normal() {
    let send_path = SendPath(vec![
        Step::Index(0),
        Step::Key("uno".into()),
        Step::Key("duo".into()),
        Step::Key("tre".into()),
    ]);
    let ext = "wut";
    let path = filename_of_path(&send_path, ext);
    assert_eq!(path, "uno.duo.tre.wut".to_string());
}

#[test]
fn empty() {
    let send_path = SendPath(vec![]);
    let ext = "wut";
    let path = filename_of_path(&send_path, ext);
    assert_eq!(path, "_.wut".to_string());
}

#[test]
fn index_only() {
    let send_path = SendPath(vec![Step::Index(0)]);
    let ext = "wut";
    let path = filename_of_path(&send_path, ext);
    assert_eq!(path, "_.wut".to_string());
}

#[test]
fn several_leading_index() {
    let send_path = SendPath(vec![Step::Index(0), Step::Index(0), Step::Index(0)]);
    let ext = "wut";
    let path = filename_of_path(&send_path, ext);
    assert_eq!(path, "_.wut".to_string());
}

#[test]
fn bad_chars() {
    // space and /
    let send_path = SendPath(vec![Step::Key("this is a bad/dangerous path".into())]);
    let ext = "wut";
    let path = filename_of_path(&send_path, ext);
    assert_eq!(path, "this_is_a_bad_dangerous_path.wut".to_string());
}

#[test]
fn filename_mpk_example() {
    let send_path = SendPath(vec![
        Step::Index(0),
        Step::Key("images".into()),
        Step::Index(3),
        Step::Key("thumb".into()),
    ]);
    let path = filename_of_path(&send_path, "mpk");
    assert_eq!(path, "images.thumb.mpk".to_string());
}

#[test]
fn canonicalize_removes_indices() {
    let p = SendPath(vec![
        Step::Index(0),
        Step::Key("images".into()),
        Step::Index(3),
        Step::Key("thumb".into()),
    ]);
    let c = canonicalize(&p);
    assert_eq!(
        c.0,
        vec![Step::Key("images".into()), Step::Key("thumb".into())]
    );
}

#[test]
fn canonicalize_is_idempotent_on_values() {
    let p = SendPath(vec![Step::Index(7), Step::Key("a".into()), Step::Index(1)]);
    let once = canonicalize(&p);
    let twice = canonicalize(&once);
    assert_eq!(once.0, twice.0);
}

#[test]
fn persistent_append_leaves_the_parent_alone() {
    let root = JsonPath::new();
    let a = root.append(Step::Key("a".into()));
    let ab = a.append(Step::Index(2));
    assert_eq!(root.len(), 0);
    assert_eq!(a.len(), 1);
    assert_eq!(ab.len(), 2);
    assert_eq!(
        ab.to_steps(),
        vec![Step::Key("a".into()), Step::Index(2)]
    );
    assert_eq!(a.to_steps(), vec![Step::Key("a".into())]);
}

#[test]
fn step_arithmetic() {
    let s = Step::Index(4);
    assert_eq!(s.plusone(), Step::Index(5));
    assert_eq!(s.offset(3), Step::Index(7));
    assert_eq!(s.offset(-4), Step::Index(0));
}

#[test]
fn append_step_copies() {
    let steps = vec![Step::Key("a".into())];
    let more = append_step(&steps, Step::Index(0));
    assert_eq!(steps.len(), 1);
    assert_eq!(more, vec![Step::Key("a".into()), Step::Index(0)]);
}

#[test]
fn nonwrap_is_transparent() {
    let w = NonWrap::new(41u64);
    assert_eq!(*w.get(), 41);
    assert_eq!(w.into_inner(), 41);
}
