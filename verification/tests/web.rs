#[test]
fn it_works() {
    let result = protocol::web::add(2, 2);
    assert_eq!(result, 4);
}
