#[test]
fn it_works() {
    let result = wallpapers::add(2, 2);
    assert_eq!(result, 4);
}
