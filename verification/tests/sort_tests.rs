use minikv::{merge_sort, radix_sort, random_sort};

fn strings(v: &[&str]) -> Vec<String> {
    v.iter().map(|s| s.to_string()).collect()
}

#[test]
fn merge_sort_vec_sort() {
    let arr = strings(&[
        "Hii",
        "This is a very long string",
        "Hi",
        "world",
        "Hello",
    ]);
    let sorted_arr = merge_sort::sort(arr);
    assert_eq!(
        sorted_arr,
        strings(&[
            "Hello",
            "Hi",
            "Hii",
            "This is a very long string",
            "world"
        ])
    );
}

#[test]
fn merge_sort_basic_case() {
    let arr = strings(&["banana", "apple", "cherry", "date", "grape"]);
    let sorted_arr = merge_sort::sort(arr);
    assert_eq!(
        sorted_arr,
        strings(&["apple", "banana", "cherry", "date", "grape"])
    );
}

#[test]
fn merge_sort_repeat_case() {
    let arr = strings(&["banana", "apple", "cherry", "date", "grape", "apple"]);
    let sorted_arr = merge_sort::sort(arr);
    assert_eq!(
        sorted_arr,
        strings(&["apple", "apple", "banana", "cherry", "date", "grape"])
    );
}

#[test]
fn merge_sort_already_sorted_case() {
    let arr = strings(&["apple", "apple", "banana", "cherry", "date", "grape"]);
    let sorted_arr = merge_sort::sort(arr);
    assert_eq!(
        sorted_arr,
        strings(&["apple", "apple", "banana", "cherry", "date", "grape"])
    );
}

#[test]
fn merge_sort_upper_and_lower_case() {
    let arr = strings(&["Apple", "banana", "Cherry", "date", "Grape"]);
    let sorted_arr = merge_sort::sort(arr);
    assert_eq!(
        sorted_arr,
        strings(&["Apple", "Cherry", "Grape", "banana", "date"])
    );
}

#[test]
fn merge_sort_empty_list() {
    let sorted_arr = merge_sort::sort(Vec::new());
    assert!(sorted_arr.is_empty());
}

#[test]
fn radix_sort_vec_sort() {
    let arr = strings(&[
        "Hii",
        "This is a very long string",
        "Hi",
        "world",
        "Hello",
    ]);
    let sorted_arr = radix_sort::sort(arr);
    assert_eq!(
        sorted_arr,
        strings(&[
            "Hi",
            "Hii",
            "Hello",
            "This is a very long string",
            "world"
        ])
    );
}

#[test]
fn radix_sort_basic_case() {
    let arr = strings(&["banana", "apple", "cherry", "date", "grape"]);
    let sorted_arr = radix_sort::sort(arr);
    assert_eq!(
        sorted_arr,
        strings(&["apple", "banana", "cherry", "date", "grape"])
    );
}

#[test]
fn radix_sort_repeat_case() {
    let arr = strings(&["banana", "apple", "cherry", "date", "grape", "apple"]);
    let sorted_arr = radix_sort::sort(arr);
    assert_eq!(
        sorted_arr,
        strings(&["apple", "apple", "banana", "cherry", "date", "grape"])
    );
}

#[test]
fn radix_sort_already_sorted_case() {
    let arr = strings(&["apple", "apple", "banana", "cherry", "date", "grape"]);
    let sorted_arr = radix_sort::sort(arr);
    assert_eq!(
        sorted_arr,
        strings(&["apple", "apple", "banana", "cherry", "date", "grape"])
    );
}

#[test]
fn radix_sort_upper_and_lower_case() {
    let arr = strings(&["Apple", "banana", "Cherry", "date", "Grape"]);
    let sorted_arr = radix_sort::sort(arr);
    assert_eq!(
        sorted_arr,
        strings(&["Apple", "Cherry", "Grape", "banana", "date"])
    );
}

#[test]
fn random_sort() {
    let arr = strings(&[
        "Hii",
        "This is a very long string",
        "Hi",
        "world",
        "Hello",
    ]);
    let sorted_arr = random_sort::sort(arr.clone());
    println!("{:?}", sorted_arr);
    assert_eq!(sorted_arr.len(), arr.len());
    let mut a = sorted_arr;
    let mut b = arr;
    a.sort();
    b.sort();
    assert_eq!(a, b);
}
