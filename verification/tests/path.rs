use radicle_surf::file_system::{unsound, Error, Label, LabelError, Path};
use radicle_surf::nonempty::{split_last, NonEmpty};

#[test]
fn labels_parse_and_refuse() {
    assert_eq!(Label::try_from("src").expect("label").as_str(), "src");
    assert!(matches!(Label::try_from(""), Err(Error::Label(LabelError::Empty))));
    assert!(matches!(
        Label::try_from("a/b"),
        Err(Error::Label(LabelError::ContainsSlash(s))) if s == "a/b"
    ));
    assert!(Label::root().is_root());
    assert!(!unsound::label::new("src").is_root());
    let parsed: Label = "lib.rs".parse().expect("label");
    assert_eq!(parsed, unsound::label::new("lib.rs"));
}

#[test]
fn paths_parse_trailing_slashes_and_refuse_empty_labels() {
    let p = Path::try_from("foo/bar/").expect("path");
    assert_eq!(p, Path::from_labels(unsound::label::new("foo"), &[unsound::label::new("bar")]));
    assert!(matches!(Path::try_from(""), Err(Error::Label(LabelError::Empty))));
    assert!(matches!(Path::try_from("a//b"), Err(Error::Label(LabelError::Empty))));
    assert!(matches!(Path::try_from("/"), Err(Error::Label(LabelError::Empty))));
}

#[test]
fn a_written_path_reads_back() {
    let p = unsound::path::new("~/src/lib.rs");
    assert_eq!(p.to_string(), "~/src/lib.rs");
    assert_eq!(Path::try_from(p.to_string().as_str()).expect("path"), p);
    assert_eq!(unsound::label::new("x").to_string(), "x");
}

#[test]
fn path_operations() {
    let mut p = Path::root();
    assert!(p.is_root());
    p.push(unsound::label::new("src"));
    assert!(!p.is_root());
    assert_eq!(p.pop(), Some(unsound::label::new("src")));
    assert_eq!(p.pop(), None);
    assert!(p.is_root());

    let mut a = unsound::path::new("a/b");
    let mut b = unsound::path::new("c");
    a.append(&mut b);
    assert_eq!(a, unsound::path::new("a/b/c"));
    assert_eq!(b, unsound::path::new("c"));

    let (init, last) = a.split_last();
    assert_eq!(init, vec![unsound::label::new("a"), unsound::label::new("b")]);
    assert_eq!(last, unsound::label::new("c"));
    let (first, rest) = a.split_first();
    assert_eq!(*first, unsound::label::new("a"));
    assert_eq!(rest.len(), 2);
    assert_eq!(a.iter().len(), 3);
    assert_eq!(Path::with_root(&[unsound::label::new("x")]), unsound::path::new("~/x"));
    assert_eq!(
        Path::new(unsound::label::new("y")).into_labels(),
        vec![unsound::label::new("y")]
    );
}

#[test]
fn non_empty_lists() {
    let mut ne = NonEmpty::new(1u32);
    ne.push(2);
    ne.push(3);
    assert_eq!(ne.len(), 3);
    assert_eq!(*ne.first(), 1);
    assert_eq!(*ne.last(), 3);
    assert_eq!(*ne.get(1), 2);
    assert_eq!(split_last(&ne), (vec![1, 2], 3));
    ne.insert(0, 0);
    assert_eq!(ne.clone().into_vec(), vec![0, 1, 2, 3]);
    assert_eq!(ne.replace(2, 9), 2);
    assert_eq!(ne.pop(), Some(3));
    *ne.get_mut(0) = 7;
    assert_eq!(ne.into_vec(), vec![7, 1, 9]);
    assert!(NonEmpty::<u32>::from_vec(vec![]).is_none());
    assert_eq!(NonEmpty::from_vec(vec![5u32]), Some(NonEmpty::new(5)));
    let mut single = NonEmpty::new('x');
    assert_eq!(single.pop(), None);
    let mut more = vec!['y', 'z'];
    single.append(&mut more);
    assert!(more.is_empty());
    assert_eq!(single.into_vec(), vec!['x', 'y', 'z']);
}
