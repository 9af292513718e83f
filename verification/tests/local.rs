use seqpool::chain::NULL;
use seqpool::rseq::list_candidate;

/// A local list whose words are read and written one at a time.
struct Words {
    head: u32,
    next: Vec<u32>,
}

impl Words {
    fn swap(&mut self, seen: u32, new: u32) -> bool {
        if self.head == seen {
            self.head = new;
            return true;
        }
        false
    }

    fn items(&self) -> Vec<u32> {
        let mut items = vec![];
        let mut at = self.head;
        while at != NULL {
            items.push(at);
            at = self.next[at as usize];
        }
        items
    }
}

#[test]
fn list_candidate_is_the_head() {
    assert_eq!(list_candidate(NULL), None);
    assert_eq!(list_candidate(0), Some(0));
    assert_eq!(list_candidate(7), Some(7));
}

#[test]
fn interleaved_pushes_and_pops_of_a_local_list() {
    let mut words = Words { head: NULL, next: vec![NULL; 4] };
    // Two threads push, and one overtakes the other.
    let seen = words.head;
    words.next[0] = seen;
    words.next[1] = words.head;
    assert!(words.swap(words.head, 1));
    assert!(!words.swap(seen, 0));
    words.next[0] = words.head;
    assert!(words.swap(words.head, 0));
    assert_eq!(words.items(), vec![0, 1]);

    // A thread pops, is overtaken by a push, and takes what is there then.
    let seen = list_candidate(words.head).unwrap();
    let link = words.next[seen as usize];
    words.next[2] = words.head;
    assert!(words.swap(words.head, 2));
    assert!(!words.swap(seen, link));
    let seen = list_candidate(words.head).unwrap();
    let link = words.next[seen as usize];
    assert!(words.swap(seen, link));
    assert_eq!(seen, 2);
    assert_eq!(words.items(), vec![0, 1]);
}
