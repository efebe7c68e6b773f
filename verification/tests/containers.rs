use sqliters::deque::Deque;
use sqliters::genlist;
use sqliters::list;
use sqliters::persistentlist;
use sqliters::queue::Queue;

#[test]
fn basics_front() {
    let mut queue: Deque<i32> = Deque::new();
    queue.push_front(1);
    queue.push_front(2);

    assert_eq!(2, *queue.peek_front().unwrap());
    assert_eq!(Some(2), queue.pop_front());

    assert_eq!(1, *queue.peek_front().unwrap());
    assert_eq!(Some(1), queue.pop_front());

    assert_eq!(None, queue.pop_front());
}

#[test]
fn basics_back() {
    let mut queue: Deque<i32> = Deque::new();
    queue.push_back(1);
    queue.push_back(2);

    assert_eq!(2, *queue.peek_back().unwrap());
    assert_eq!(Some(2), queue.pop_back());

    assert_eq!(1, *queue.peek_back().unwrap());
    assert_eq!(Some(1), queue.pop_back());

    assert_eq!(None, queue.pop_back());
}

#[test]
fn empty_list_front() {
    let mut queue: Deque<i32> = Deque::new();
    assert_eq!(None, queue.pop_front());
    assert_eq!(None, queue.pop_front());
}

#[test]
fn empty_list_back() {
    let mut queue: Deque<i32> = Deque::new();
    assert_eq!(None, queue.pop_back());
    assert_eq!(None, queue.pop_back());
}

#[test]
fn deque_into_iter() {
    let mut queue = Deque::new();
    queue.push_front(1);
    queue.push_back(2);

    let mut iter = queue.into_iter();
    assert_eq!(Some(1), iter.next());
    assert_eq!(Some(2), iter.next());
    assert_eq!(None, iter.next());
}

#[test]
fn double_ended_iter() {
    let mut queue = Deque::new();
    queue.push_front(1);
    queue.push_back(2);
    queue.push_back(3);

    let mut iter = queue.into_iter();
    assert_eq!(Some(1), iter.next());
    assert_eq!(Some(3), iter.next_back());
    assert_eq!(Some(2), iter.next());
    assert_eq!(None, iter.next());
    assert_eq!(None, iter.next_back());
}

#[test]
fn genlist_basics() {
    let mut list = genlist::List::new();
    list.insert(7);
    assert_eq!(Some(7), list.remove());
    assert_eq!(None, list.remove());

    list.insert(1);
    list.insert(2);
    list.insert(3);

    assert_eq!(Some(3), list.remove());
    assert_eq!(Some(2), list.remove());
    assert_eq!(Some(1), list.remove());
    assert_eq!(None, list.remove());
}

#[test]
fn genlist_drop_long_list() {
    let mut list = genlist::List::new();
    for i in 1..100000 {
        list.insert(i);
    }
}

#[test]
fn peeks() {
    let mut list = genlist::List::new();
    let upto = 10;
    for i in 1..upto {
        list.insert(i);
    }
    for i in 1..upto {
        assert_eq!(Some(&(upto - i)), list.peek());
        list.remove();
    }
}

#[test]
fn genlist_into_iter() {
    let mut list = genlist::List::new();
    let upto = 10;
    for i in 1..upto {
        list.insert(i);
    }

    let mut i = 9;
    let mut iter = list.into_iter();
    while let Some(v) = iter.next() {
        assert_eq!(v, i);
        i = i - 1;
    }

    assert_eq!(None, iter.next());
}

#[test]
fn genlist_iter() {
    let mut list = genlist::List::new();
    let upto = 10;
    for i in 1..upto {
        list.insert(i);
    }

    let mut i = 9;
    let mut iter = list.iter();
    while let Some(v) = iter.next() {
        assert_eq!(v, &i);
        i = i - 1;
    }

    assert_eq!(None, iter.next());
}

#[test]
fn list_basics() {
    let mut list = list::List::new();
    list.insert(7);
    assert_eq!(Some(7), list.remove());
    assert_eq!(None, list.remove());

    list.insert(1);
    list.insert(2);
    list.insert(3);

    assert_eq!(Some(3), list.remove());
    assert_eq!(Some(2), list.remove());
    assert_eq!(Some(1), list.remove());
    assert_eq!(None, list.remove());
}

#[test]
fn list_drop_long_list() {
    let mut list = list::List::new();
    for i in 1..100000 {
        list.insert(i);
    }
}

#[test]
fn persistentlist_basics() {
    persistentlist::List::new().append(1);
}

#[test]
fn basic_mut_ops() {
    let upto = 10;
    let mut list2 = persistentlist::List::new();
    for i in 1..upto {
        list2 = list2.append(i);
    }

    assert_eq!(Some(&9), list2.head());

    for _ in 1..upto {
        list2 = list2.tail();
    }

    assert_eq!(None, list2.head());
}

#[test]
fn chaining() {
    let list = persistentlist::List::new().append(1).append(2).append(3);
    assert_eq!(Some(&3), list.head());
    let list = list.tail();
    assert_eq!(Some(&2), list.head());
    let list = list.tail().tail();
    assert_eq!(None, list.head());
}

#[test]
fn persistentlist_iter() {
    let mut list = persistentlist::List::new();
    let upto = 10;
    for i in 1..upto {
        list = list.append(i);
    }

    let mut i = 9;
    let mut iter = list.iter();
    while let Some(v) = iter.next() {
        assert_eq!(v, &i);
        i = i - 1;
    }

    assert_eq!(None, iter.next());
}

#[test]
fn drop() {
    let mut list = persistentlist::List::new();
    let upto = 100000;
    for i in 1..upto {
        list = list.append(i);
    }
}

#[test]
fn unsafelist_basics() {
    let mut q = Queue::new();
    assert_eq!(None, q.pop());
    q.push(1);
    assert_eq!(Some(1), q.pop());
    assert_eq!(None, q.pop());
    let mut q2 = q;
    q2.push(2);
    assert_eq!(Some(2), q2.pop());
    assert_eq!(None, q2.pop());
}

#[test]
fn unsafelist_into_iter() {
    let mut q = Queue::new();
    q.push(1);
    q.push(2);
    q.push(3);

    {
        let mut iter = q.into_iter();
        assert_eq!(Some(1), iter.next());
        assert_eq!(Some(2), iter.next());
        assert_eq!(Some(3), iter.next());
        assert_eq!(None, iter.next());
    }
}

#[test]
fn unsafelist_iter() {
    let mut q = Queue::new();
    q.push(1);
    q.push(2);
    q.push(3);

    {
        let mut iter = q.iter();
        assert_eq!(Some(&1), iter.next());
        assert_eq!(Some(&2), iter.next());
        assert_eq!(Some(&3), iter.next());
        assert_eq!(None, iter.next());
    }

    assert_eq!(Some(&1), q.peek());
    assert_eq!(Some(1), q.pop());
}
