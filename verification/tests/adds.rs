//! The plain counter helper.

#[test]
fn it_adds_correctly() {
    assert_eq!(kv::add(2, 2), 4);

    println!("--- 测试 1 跑过啦！---");
}

#[test]
fn another_test() {
    assert!(true);
    println!("--- 测试 2 也跑过啦！---");
}
