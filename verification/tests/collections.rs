use adhoc_audio::collections::bitvec::BitVec;
use adhoc_audio::collections::linked_list::{InsertDirection, LinkedList, LinkedListIterator};
use adhoc_audio::collections::lru_cache::LruCache;
use adhoc_audio::collections::nibble_list::NibbleList;
use adhoc_audio::collections::node::{Node, Ptr, NULL_INDEX};
use adhoc_audio::collections::queue::FixedRingBuffer;
use adhoc_audio::collections::stack::CircularStack;

#[test]
fn bitvec_sanity() {
    let mut bit_list = BitVec::new();

    //push tests
    bit_list.push(0);
    bit_list.push(1);
    bit_list.push(1);
    bit_list.push(0);
    assert_eq!(vec![0, 1, 1, 0], bit_list.iter());

    bit_list.push(1);
    assert_eq!(vec![0, 1, 1, 0, 1], bit_list.iter());
    assert_eq!(5, bit_list.len());
    assert_eq!(64, bit_list.capacity());

    //check if set works
    bit_list.set(1, 0);
    bit_list.set(4, 0);
    assert_eq!(vec![0, 0, 1, 0, 0], bit_list.iter());

    //check if clear works
    bit_list.clear();
    assert_eq!(Vec::<u64>::new(), bit_list.iter());
    assert_eq!(64, bit_list.capacity());
}

#[test]
/// generate a sequence of 0s and 1s, write it into a bitvec, then read it back
fn read_back_sequence() {
    let seq_len = 100_000;
    let bit_sequence = (0u64..seq_len).map(|i| i % 2).collect::<Vec<_>>();

    let mut bit_list = BitVec::new();
    bit_sequence.iter().for_each(|&b| {
        bit_list.push(b);
    });
    assert_eq!(bit_sequence, bit_list.iter());
    assert_eq!(seq_len as usize, bit_list.len());
    assert_eq!(BitVec::compute_bits_required(seq_len), bit_list.capacity());
}

#[test]
fn bitvec_push_after_clear_overwrites() {
    let mut bit_list = BitVec::new();
    for _ in 0..70 {
        bit_list.push(1);
    }
    assert_eq!(128, bit_list.capacity());
    bit_list.clear();
    bit_list.push(0);
    bit_list.push(1);
    bit_list.push(0);
    assert_eq!(vec![0, 1, 0], bit_list.iter());
    assert_eq!(128, bit_list.capacity());
}

#[test]
fn bitvec_out_of_range() {
    let mut bit_list = BitVec::new();
    bit_list.push(3);
    bit_list.push(2);
    assert_eq!(vec![1, 0], bit_list.iter());
    assert_eq!(0, bit_list.get(2));
    assert_eq!(0, bit_list.get(1000));
    bit_list.set(2, 1);
    bit_list.set(1000, 1);
    assert_eq!(vec![1, 0], bit_list.iter());
    assert_eq!(2, bit_list.len());
}

#[test]
fn bits_required_rounds_up() {
    assert_eq!(0, BitVec::compute_bits_required(0));
    assert_eq!(64, BitVec::compute_bits_required(1));
    assert_eq!(64, BitVec::compute_bits_required(64));
    assert_eq!(128, BitVec::compute_bits_required(65));
}

#[test]
fn nibble_list_sanity() {
    let mut list = NibbleList::new();
    let input = [1u8, 2, 3, 4, 5, 6, 7];
    input.iter().for_each(|&b| list.push(b as u8));
    assert_eq!(&input, list.iter().as_slice());
    assert_eq!(input.len(), list.len());

    list.set(6, 10);
    assert_eq!(vec![1, 2, 3, 4, 5, 6, 10], list.iter().as_slice());

    list.set(5, 1);
    assert_eq!(vec![1, 2, 3, 4, 5, 1, 10], list.iter().as_slice());

    list.set(0, 10);
    assert_eq!(vec![10, 2, 3, 4, 5, 1, 10], list.iter().as_slice());
}

#[test]
fn nibble_list_keeps_low_four_bits() {
    let mut list = NibbleList::new();
    assert!(list.is_empty());
    list.push(0x3a);
    list.push(0xff);
    list.push(0x10);
    assert_eq!(vec![10, 15, 0], list.iter());
    assert_eq!(15, list.get(1));
    assert_eq!(0, list.get(3));
    list.set(9, 5);
    assert_eq!(vec![10, 15, 0], list.iter());
    list.set(1, 0x21);
    assert_eq!(vec![10, 1, 0], list.iter());
    list.clear();
    assert!(list.is_empty());
    list.push(4);
    assert_eq!(vec![4], list.iter());
}

#[test]
fn queue_sanity() {
    let mut queue = FixedRingBuffer::new([0; 32], 32);

    queue.push_rear(0);
    queue.push_rear(1);
    queue.push_rear(2);
    queue.push_rear(3);

    assert_eq!(
        vec![0, 1, 2, 3],
        queue.iter().iter().map(|&&a| a).collect::<Vec<_>>()
    );
    assert_eq!(4, queue.len());

    let item = queue.pop_front().map(|&a| a);
    assert_eq!(Some(0), item);
    assert_eq!(
        vec![1, 2, 3],
        queue.iter().iter().map(|&&a| a).collect::<Vec<_>>()
    );

    let item = queue.pop_front().map(|&a| a);
    assert_eq!(Some(1), item);
    assert_eq!(
        vec![2, 3],
        queue.iter().iter().map(|&&a| a).collect::<Vec<_>>()
    );

    let item = queue.pop_front().map(|&a| a);
    assert_eq!(Some(2), item);
    assert_eq!(
        vec![3],
        queue.iter().iter().map(|&&a| a).collect::<Vec<_>>()
    );
    assert_eq!(1, queue.len());

    let item = queue.pop_rear().map(|&a| a);
    assert_eq!(Some(3), item);
    assert_eq!(
        Vec::<i32>::new(),
        queue.iter().iter().map(|&&a| a).collect::<Vec<_>>()
    );
    assert_eq!(0, queue.len());

    let item = queue.pop_rear().map(|&a| a);
    assert_eq!(None, item);
    assert_eq!(
        Vec::<i32>::new(),
        queue.iter().iter().map(|&&a| a).collect::<Vec<_>>()
    );
    assert_eq!(0, queue.len());
}

#[test]
fn queue_wraps_and_refuses_when_full() {
    let mut queue = FixedRingBuffer::new([0u8; 4], 4);
    assert!(queue.is_empty());
    queue.push_front(1);
    queue.push_front(2);
    queue.push_rear(3);
    queue.push_rear(4);
    assert!(queue.is_full());
    queue.push_rear(5);
    queue.push_front(6);
    assert_eq!(4, queue.len());
    assert_eq!(
        vec![2, 1, 3, 4],
        queue.iter().iter().map(|&&a| a).collect::<Vec<_>>()
    );
    assert_eq!(Some(4), queue.pop_rear().map(|&a| a));
    assert_eq!(Some(2), queue.pop_front().map(|&a| a));
    queue.push_rear(7);
    assert_eq!(
        vec![1, 3, 7],
        queue.iter().iter().map(|&&a| a).collect::<Vec<_>>()
    );
    queue.clear();
    assert!(queue.is_empty());
    assert_eq!(None, queue.pop_front().map(|&a| a));
}

#[test]
fn stack_sanity() {
    let mut queue: CircularStack<u32> = CircularStack::new();

    queue.push(1);
    queue.push(2);
    assert_eq!(2, queue.prev(1));
    assert_eq!(1, queue.prev(2));
}

#[test]
fn sanity_2() {
    let mut queue: CircularStack<u32> = CircularStack::new();
    queue.push(1);
    assert_eq!(1, queue.prev(1));
    queue.push(2);
    assert_eq!(2, queue.prev(1));
    assert_eq!(1, queue.prev(2));
}

#[test]
fn sanity_3() {
    let mut queue: CircularStack<u32> = CircularStack::new();
    queue.push(1);
    assert_eq!(1, queue.prev(1));
    queue.push(2);
    assert_eq!(2, queue.prev(1));
    assert_eq!(1, queue.prev(2));

    assert_eq!(2, queue.pop());
    assert_eq!(1, queue.pop());
    assert_eq!(0, queue.len());
}

#[test]
fn stack_recency_after_wrapping() {
    let mut stack: CircularStack<i16> = CircularStack::new();
    assert_eq!(0, stack.prev(1));
    for v in 1..=6 {
        stack.push(v);
    }
    assert_eq!(4, stack.len());
    assert_eq!(6, stack.prev(1));
    assert_eq!(5, stack.prev(2));
    assert_eq!(4, stack.prev(3));
    assert_eq!(3, stack.prev(4));
    // an offset beyond the length counts as the length
    assert_eq!(3, stack.prev(9));
    // offset zero names the slot that the next push overwrites
    assert_eq!(3, stack.prev(0));
    assert!(stack.is_empty());
}

#[test]
fn stack_prev_clamps_to_length() {
    let mut stack: CircularStack<i16> = CircularStack::new();
    stack.push(7);
    stack.push(8);
    assert_eq!(2, stack.len());
    assert_eq!(7, stack.prev(3));
    assert!(!stack.is_empty());
}

#[test]
fn sanity_test() {
    let mut ll = LinkedList::<i32>::new();
    ll.push_front(1);
    ll.push_front(2);
    ll.push_front(3);
    ll.push_rear(99);
    ll.pop_front();
    ll.pop_front();
    ll.pop_front();
    ll.pop_rear();
    ll.push_rear(1);
    ll.push_front(-99);
    ll.push_rear(3);

    let list = ll.iter();
    println!("{:?}", list);
    assert_eq!(vec![&-99, &1, &3], list);

    println!("front:{:?}", ll.get(ll.front()).and_then(|n| n.data()));
    println!("rear:{:?}", ll.get(ll.rear()).and_then(|n| n.data()));
    assert_eq!(Some(&-99), ll.get(ll.front()).and_then(|n| n.data()));
    assert_eq!(Some(&3), ll.get(ll.rear()).and_then(|n| n.data()));
}

#[test]
fn linked_list_inserts_and_removes_in_the_middle() {
    let mut ll = LinkedList::<u8>::new();
    assert_eq!(0, ll.len());
    assert!(ll.front().is_null());
    assert!(ll.rear().is_null());
    assert_eq!(None, ll.pop_front());
    assert_eq!(None, ll.pop_rear());
    assert_eq!(None, ll.remove_at(Ptr::null()));

    // into an empty list the value goes whatever the pointer is
    ll.insert_at(Ptr::null(), InsertDirection::Right, 10);
    assert_eq!(vec![&10], ll.iter());
    // with a null pointer and a list that is not empty nothing happens
    ll.insert_at(Ptr::null(), InsertDirection::Left, 11);
    assert_eq!(vec![&10], ll.iter());

    let ten = ll.front();
    assert_eq!(ten, ll.rear());
    ll.insert_at(ten, InsertDirection::Right, 30);
    ll.insert_at(ten, InsertDirection::Right, 20);
    ll.insert_at(ten, InsertDirection::Left, 5);
    assert_eq!(vec![&5, &10, &20, &30], ll.iter());
    assert_eq!(4, ll.len());
    let thirty = ll.rear();
    ll.insert_at(thirty, InsertDirection::Left, 25);
    ll.insert_at(thirty, InsertDirection::Right, 35);
    assert_eq!(vec![&5, &10, &20, &25, &30, &35], ll.iter());
    assert_eq!(Some(&35), ll.get(ll.rear()).and_then(|n| n.data()));

    assert_eq!(Some(10), ll.remove_at(ten));
    assert_eq!(vec![&5, &20, &25, &30, &35], ll.iter());
    assert_eq!(Some(30), ll.remove_at(thirty));
    assert_eq!(vec![&5, &20, &25, &35], ll.iter());
    let front = ll.front();
    assert_eq!(Some(5), ll.remove_at(front));
    let rear = ll.rear();
    assert_eq!(Some(35), ll.remove_at(rear));
    assert_eq!(vec![&20, &25], ll.iter());

    // freed nodes are used again, the last freed first
    ll.push_rear(40);
    assert_eq!(rear, ll.rear());
    ll.push_front(1);
    assert_eq!(front, ll.front());
    assert_eq!(vec![&1, &20, &25, &40], ll.iter());

    // the last value goes whatever the pointer is
    assert_eq!(Some(1), ll.pop_front());
    assert_eq!(Some(40), ll.pop_rear());
    assert_eq!(Some(20), ll.pop_front());
    assert_eq!(Some(25), ll.remove_at(Ptr::null()));
    assert_eq!(0, ll.len());
    assert!(ll.front().is_null());
    assert_eq!(Vec::<&u8>::new(), ll.iter());
}

#[test]
fn linked_list_nodes_and_pool() {
    let mut ll = LinkedList::<u8>::new();
    let loose = ll.allocate(7);
    assert_eq!(0, loose.as_usize());
    assert_eq!(0, ll.len());
    assert_eq!(Some(&7), ll.get(loose).and_then(|n| n.data()));
    if let Some(value) = ll.get_mut(loose).and_then(|n| n.data_mut()) {
        *value = 8;
    }
    assert_eq!(Some(8), ll.free(loose));
    assert_eq!(None, ll.get(loose).and_then(|n| n.data()));
    assert!(ll.get(Ptr(5)).is_none());
    assert!(ll.get_mut(Ptr::null()).is_none());
    // the node of the pool is used for the next value
    ll.push_rear(9);
    assert_eq!(loose, ll.front());

    let mut walk = LinkedListIterator::new(&ll);
    assert_eq!(Some(loose), walk.next());
    assert_eq!(None, walk.next());
    assert_eq!(None, walk.next());
}

#[test]
fn pointers_and_nodes() {
    assert_eq!(0xffff_ffff, NULL_INDEX);
    assert!(Ptr::null().is_null());
    assert!(!Ptr(0).is_null());
    assert_eq!(Ptr(7), Ptr::from(7u32));
    assert_eq!(Ptr(7), Ptr::from(7usize));
    assert_eq!(Ptr(1), Ptr::from(0x1_0000_0001u64));
    assert_eq!(7, Ptr(7).as_usize());
    assert_eq!(0, InsertDirection::Left.as_usize());
    assert_eq!(1, InsertDirection::Right.as_usize());

    let mut node = Node::<u8, 3>::new();
    assert_eq!(None, node.data());
    assert_eq!([Ptr::null(); 3], node.children);
    node.set_data(4);
    node.children[1] = Ptr(2);
    assert_eq!(Some(&4), node.data());
    if let Some(value) = node.data_mut() {
        *value += 1;
    }
    assert_eq!(Some(&5), node.data());
    node.nullify();
    assert_eq!([Ptr::null(); 3], node.children);
    assert_eq!(Some(&5), node.data());
    let from = Node::<u8, 2>::from(6);
    assert_eq!(Some(&6), from.data());
    assert_eq!([Ptr::null(); 2], from.children);
}

#[test]
fn linked_list_value_mut_changes_one_value() {
    let mut ll = LinkedList::<i32>::new();
    ll.push_rear(1);
    ll.push_rear(2);
    ll.push_rear(3);
    let middle = {
        let mut walk = LinkedListIterator::new(&ll);
        walk.next();
        walk.next().unwrap()
    };
    *ll.value_mut(middle) = 20;
    assert_eq!(vec![&1, &20, &3], ll.iter());
    assert_eq!(3, ll.len());
}

#[test]
fn cache_gives_up_the_entry_used_longest_ago() {
    let mut cache = LruCache::<&str>::new(2);
    assert_eq!(0, cache.len());
    assert_eq!(None, cache.lookup(&1));
    cache.put(1, "one");
    cache.put(2, "two");
    assert_eq!(2, cache.len());
    cache.put(3, "three");
    assert_eq!(2, cache.len());
    assert_eq!(None, cache.lookup(&1));
    assert_eq!(Some(&"two"), cache.lookup(&2));
    assert_eq!(Some(&"three"), cache.lookup(&3));
}

#[test]
fn cache_get_makes_the_entry_the_last_used() {
    let mut cache = LruCache::<u32>::new(2);
    cache.put(1, 10);
    cache.put(2, 20);
    assert_eq!(Some(&10), cache.get(&1));
    assert_eq!(None, cache.get(&7));
    cache.put(3, 30);
    assert_eq!(None, cache.lookup(&2));
    assert_eq!(Some(&10), cache.lookup(&1));
    assert_eq!(Some(&30), cache.lookup(&3));
}

#[test]
fn cache_lookup_leaves_the_order() {
    let mut cache = LruCache::<u32>::new(2);
    cache.put(1, 10);
    cache.put(2, 20);
    assert_eq!(Some(&10), cache.lookup(&1));
    cache.put(3, 30);
    assert_eq!(None, cache.lookup(&1));
    assert_eq!(Some(&20), cache.lookup(&2));
}

#[test]
fn cache_put_replaces_the_value_of_a_key() {
    let mut cache = LruCache::<u32>::new(2);
    cache.put(1, 10);
    cache.put(2, 20);
    cache.put(1, 11);
    assert_eq!(2, cache.len());
    assert_eq!(Some(&11), cache.lookup(&1));
    // key 1 was used last: key 2 goes
    cache.put(3, 30);
    assert_eq!(None, cache.lookup(&2));
    assert_eq!(Some(&11), cache.lookup(&1));
}

#[test]
fn cache_get_mut_changes_the_value() {
    let mut cache = LruCache::<u32>::new(2);
    cache.put(1, 10);
    cache.put(2, 20);
    if let Some(value) = cache.get_mut(&1) {
        *value += 5;
    }
    assert!(cache.get_mut(&9).is_none());
    assert_eq!(Some(&15), cache.lookup(&1));
    cache.put(3, 30);
    assert_eq!(None, cache.lookup(&2));
    assert_eq!(Some(&15), cache.lookup(&1));
}

#[test]
fn cache_remove_takes_the_entry_out() {
    let mut cache = LruCache::<u32>::new(3);
    cache.put(1, 10);
    cache.put(2, 20);
    cache.put(3, 30);
    assert_eq!(Some(20), cache.remove(&2));
    assert_eq!(None, cache.remove(&2));
    assert_eq!(2, cache.len());
    assert_eq!(None, cache.lookup(&2));
    cache.put(4, 40);
    assert_eq!(3, cache.len());
    cache.put(5, 50);
    assert_eq!(3, cache.len());
    assert_eq!(None, cache.lookup(&1));
    assert_eq!(Some(&30), cache.lookup(&3));
    assert_eq!(Some(30), cache.remove(&3));
    assert_eq!(Some(40), cache.remove(&4));
    assert_eq!(Some(50), cache.remove(&5));
    assert_eq!(0, cache.len());
    cache.put(6, 60);
    assert_eq!(Some(&60), cache.get(&6));
}

#[test]
fn cache_of_one_entry() {
    let mut cache = LruCache::<u32>::new(1);
    cache.put(1, 10);
    cache.put(2, 20);
    assert_eq!(1, cache.len());
    assert_eq!(None, cache.lookup(&1));
    assert_eq!(Some(&20), cache.get(&2));
    cache.put(2, 21);
    assert_eq!(Some(&21), cache.lookup(&2));
}

#[test]
fn fresh_vectors_allocate_nothing() {
    let bits = BitVec::new();
    assert_eq!(0, bits.len());
    assert_eq!(0, bits.capacity());
    assert!(bits.words().is_empty());
    let list = NibbleList::new();
    assert!(list.is_empty());
    assert!(list.data().is_empty());
}
