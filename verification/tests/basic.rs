#[test]
fn it_works() {
    let result = sps30rs::add(2, 2);
    assert_eq!(result, 4);
}
