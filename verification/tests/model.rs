use lib::shannon_fano::generate_table;
use lib::huffman::huffman_token::Token as UsageToken;
use lib::huffman::utils::{
    update_context,
    create_tree, exclusion_table, update_tables, update_totals, ContextItem, ContextNode, ContextTable,
};
use lib::util::binary_tree::{BinaryTree, Node};
use lib::util::buffer::{construct, get_default_weights};
use lib::util::io::{change_to_ascii, clean_content, raw_out};
use lib::util::token::Token;

#[test]
fn construct_orders_symbols_by_count() {
    let table = construct(&"abracadabra".to_string());
    let symbols: Vec<char> = table.iter().map(|t| t.get_symbol()).collect();
    let counts: Vec<usize> = table.iter().map(|t| t.get_usage()).collect();
    assert_eq!(symbols, vec!['c', 'd', 'b', 'r', 'a']);
    assert_eq!(counts, vec![1, 1, 2, 2, 5]);
    // The weights add up to the length of the text.
    assert_eq!(table.iter().map(|t| t.get_probability()).sum::<usize>(), 11);
}

#[test]
fn default_weights_lightest_first() {
    let table = get_default_weights();
    assert_eq!(table.len(), 27);
    let first: Vec<char> = table.iter().take(4).map(|t| t.get_symbol()).collect();
    assert_eq!(first, vec!['w', 'y', 'k', 'x']);
    assert_eq!(table[26].get_symbol(), ' ');
    assert_eq!(table[26].get_probability(), 1438);
}

#[test]
fn tree_codes_follow_joins() {
    let table = vec![Token::new_all('b', 1, 1), Token::new_all('a', 2, 2), Token::new_all('c', 4, 4)];
    let tree = BinaryTree::new(table);
    // b and a join (weight 3), before c: ((b a) c).
    assert_eq!(BinaryTree::search(tree.get_root(), 'b'), Some(0));
    assert_eq!(BinaryTree::search(tree.get_root(), 'a'), Some(1));
    assert_eq!(BinaryTree::search(tree.get_root(), 'c'), Some(1));
    assert_eq!(BinaryTree::search(tree.get_root(), 'z'), None);
}

#[test]
fn tree_decode_walks_bits() {
    let make = || {
        BinaryTree::new(vec![Token::new_all('b', 1, 1), Token::new_all('a', 2, 2), Token::new_all('c', 4, 4)])
    };
    assert_eq!(BinaryTree::decode(make(), &vec![0, 0]), Some('b'));
    assert_eq!(BinaryTree::decode(make(), &vec![0, 1]), Some('a'));
    assert_eq!(BinaryTree::decode(make(), &vec![1]), Some('c'));
    assert_eq!(BinaryTree::decode(make(), &vec![0]), None);
    assert_eq!(BinaryTree::decode(make(), &vec![1, 0]), None);
}

#[test]
fn single_leaf_tree_takes_one_bit() {
    let tree = || BinaryTree::new(vec![Token::new_all('q', 1, 1)]);
    assert_eq!(BinaryTree::search(tree().get_root(), 'q'), Some(0));
    assert_eq!(BinaryTree::decode(tree(), &vec![0]), Some('q'));
    assert_eq!(BinaryTree::decode(tree(), &vec![]), None);
}

#[test]
fn node_accessors() {
    let leaf = Node::new('x', 3);
    assert!(leaf.is_leaf());
    assert_eq!(leaf.get_symbol(), 'x');
    let branch = Node::new_branch(Node::new('x', 3), Node::new('y', 4));
    assert_eq!(branch.get_count(), 7);
    assert_eq!(branch.get_symbol(), ' ');
    assert!(!branch.is_leaf());
}

#[test]
fn token_code_grows_at_front() {
    let mut t = Token::new('a');
    t.add_to_code(1);
    t.add_to_code(0);
    assert_eq!(t.get_code(), &vec![0, 1]);
    t.increment_usage();
    assert_eq!(t.get_usage(), 2);
    t.set_probability(7);
    assert_eq!(t.get_probability(), 7);
}

#[test]
fn usage_token_counts() {
    let mut t = UsageToken::new(1);
    t.increment_usage();
    t.set_total(9);
    assert_eq!(t.get_usage(), 2);
    assert_eq!(t.get_probability(), (2, 9));
    t.set_usage(5);
    assert_eq!(t.get_usage(), 5);
}

#[test]
fn change_to_ascii_folds_accents() {
    assert_eq!(change_to_ascii('é'), 'e');
    assert_eq!(change_to_ascii('ã'), 'a');
    assert_eq!(change_to_ascii('ç'), 'c');
    assert_eq!(change_to_ascii('—'), ' ');
    assert_eq!(change_to_ascii('q'), 'q');
}

#[test]
fn clean_content_keeps_plain_letters() {
    let text = "Olá, Mundo! Ação 123".to_string();
    assert_eq!(clean_content(&text), "olamundoacao".chars().collect::<Vec<char>>());
}

#[test]
fn raw_out_spells_codes_without_leading_zeros() {
    assert_eq!(raw_out(&"ab".to_string()), vec![1, 1, 0, 0, 0, 0, 1, 1, 1, 0, 0, 0, 1, 0]);
    // A letter outside ASCII is written byte by byte: 0xC3 0xA9.
    assert_eq!(raw_out(&"é".to_string()), vec![1, 1, 0, 0, 0, 0, 1, 1, 1, 0, 1, 0, 1, 0, 0, 1]);
}

fn two_levels() -> ContextTable {
    ContextTable {
        levels: vec![
            ContextNode { contexts: vec![(vec![], ContextItem::new())] },
            ContextNode { contexts: vec![] },
        ],
    }
}

fn alphabet() -> Vec<char> {
    ('a'..='z').collect()
}

#[test]
fn update_tables_learns_after_context() {
    let mut tables = two_levels();
    let mut unseen = alphabet();
    update_tables(&vec![], 1, 'a', &mut tables, &mut unseen);
    let t0 = &tables.levels[0].contexts[0].1;
    let keys: Vec<char> = t0.entries.iter().map(|e| e.0).collect();
    assert_eq!(keys, vec!['a', '~']);
    assert_eq!(t0.entries[0].1.total, 2);
    assert!(!unseen.contains(&'a'));
    assert_eq!(unseen.len(), 25);
    // 'b' after the context "a": the context is created and level zero learns 'b'.
    update_tables(&vec!['a'], 1, 'b', &mut tables, &mut unseen);
    assert_eq!(tables.levels[1].contexts.len(), 1);
    assert_eq!(tables.levels[1].contexts[0].0, vec!['a']);
    let t1: Vec<char> = tables.levels[1].contexts[0].1.entries.iter().map(|e| e.0).collect();
    assert_eq!(t1, vec!['b', '~']);
    let t0: Vec<(char, usize)> =
        tables.levels[0].contexts[0].1.entries.iter().map(|e| (e.0, e.1.get_usage())).collect();
    assert_eq!(t0, vec![('a', 1), ('b', 1), ('~', 2)]);
    assert!(!unseen.contains(&'b'));
}

#[test]
fn exclusion_table_removes_escaped_symbols_below() {
    let mut tables = two_levels();
    let mut unseen = alphabet();
    update_tables(&vec![], 1, 'a', &mut tables, &mut unseen);
    update_tables(&vec!['a'], 1, 'b', &mut tables, &mut unseen);
    let phrase = vec!['a'];
    let item = tables.levels[1].contexts[0].1.copy();
    let excluded = exclusion_table(&tables, (&phrase, &item), 1).unwrap();
    let t0: Vec<(char, usize, usize)> = excluded.levels[0].contexts[0].1.entries.iter()
        .map(|e| (e.0, e.1.get_usage(), e.1.total)).collect();
    assert_eq!(t0, vec![('a', 1, 3), ('~', 2, 3)]);
    assert!(exclusion_table(&tables, (&phrase, &item), 0).is_none());
}

#[test]
fn update_totals_sets_sum() {
    let mut item = ContextItem { entries: vec![('a', UsageToken::new(2)), ('~', UsageToken::new(1))] };
    update_totals(&mut item);
    assert_eq!(item.entries[0].1.total, 3);
    assert_eq!(item.entries[1].1.total, 3);
    let tree = create_tree(&item);
    assert_eq!(BinaryTree::search(tree.get_root(), '~'), Some(1));
    assert_eq!(BinaryTree::search(tree.get_root(), 'a'), Some(0));
}

#[test]
fn shannon_fano_codes_split_by_weight() {
    let buffer = vec![
        Token::new_all('A', 1, 25),
        Token::new_all('B', 1, 25),
        Token::new_all('C', 1, 20),
        Token::new_all('D', 1, 15),
        Token::new_all('E', 1, 10),
        Token::new_all('F', 1, 5),
    ];
    let table = generate_table(buffer, vec![], 100);
    let symbols: Vec<char> = table.iter().map(|t| t.get_symbol()).collect();
    let codes: Vec<Vec<u8>> = table.iter().map(|t| t.get_code().clone()).collect();
    assert_eq!(symbols, vec!['F', 'E', 'D', 'C', 'B', 'A']);
    assert_eq!(
        codes,
        vec![vec![1, 1, 1, 1], vec![1, 1, 1, 0], vec![1, 1, 0, 1], vec![1, 0, 1], vec![0, 1], vec![0, 0]]
    );
}

#[test]
fn shannon_fano_single_and_pair() {
    let one = generate_table(vec![Token::new_all('x', 1, 3)], vec![0], 10);
    assert_eq!(one[0].get_code(), &vec![0, 1]);
    let two = generate_table(vec![Token::new_all('x', 1, 3), Token::new_all('y', 1, 7)], vec![], 10);
    // Codes 1 (x, 30%) and 0 (y, 70%): lower percentage first.
    assert_eq!(two.iter().map(|t| (t.get_symbol(), t.get_code().clone())).collect::<Vec<_>>(),
        vec![('x', vec![1]), ('y', vec![0])]);
}

#[test]
fn traversal_lists_leaves_breadth_first() {
    let table = vec![Token::new_all('b', 1, 1), Token::new_all('a', 2, 2), Token::new_all('c', 4, 4)];
    let tree = BinaryTree::new(table);
    // ((b a) c): c is met on the first level, then b and a.
    assert_eq!(tree.traversal(), vec![('c', 4), ('b', 1), ('a', 2)]);
}

#[test]
fn tokens_compare_by_weight() {
    let light = Token::new_all('a', 9, 3);
    let same = Token::new_all('b', 1, 3);
    let heavy = Token::new_all('c', 1, 4);
    assert!(light == same);
    assert!(light < heavy);
    assert!(heavy > same);
    assert_eq!(light.partial_cmp(&same), Some(std::cmp::Ordering::Equal));
}

fn learn_text(text: &str, k: usize) -> (ContextTable, Vec<char>) {
    let mut levels = vec![ContextNode { contexts: vec![(vec![], ContextItem::new())] }];
    for _ in 0..k {
        levels.push(ContextNode { contexts: vec![] });
    }
    let mut tables = ContextTable { levels };
    let mut unseen = alphabet();
    let mut context: Vec<char> = vec![];
    for c in text.chars() {
        update_tables(&context, k, c, &mut tables, &mut unseen);
        update_context(&mut context, c, k);
    }
    (tables, unseen)
}

#[test]
fn learning_keeps_totals_escapes_suffixes_and_unseen() {
    let (tables, unseen) = learn_text("abracadabra", 2);
    for (l, node) in tables.levels.iter().enumerate() {
        for (phrase, item) in node.contexts.iter() {
            let sum: usize = item.entries.iter().map(|e| e.1.get_usage()).sum();
            assert!(item.entries.iter().all(|e| e.1.total == sum));
            if l >= 1 {
                assert_eq!(phrase.len(), l);
                let others = item.entries.iter().filter(|e| e.0 != '~').count();
                let escape = item.entries.iter().find(|e| e.0 == '~').unwrap().1.get_usage();
                assert_eq!(escape, others);
                let below = &tables.levels[l - 1].contexts.iter().find(|c| c.0 == phrase[1..].to_vec()).unwrap().1;
                for e in item.entries.iter().filter(|e| e.0 != '~') {
                    assert!(below.contains_key(e.0));
                }
            }
        }
    }
    let t0 = &tables.levels[0].contexts[0].1;
    let expected: Vec<char> = alphabet().into_iter().filter(|c| !t0.contains_key(*c)).collect();
    assert_eq!(unseen, expected);
}

#[test]
fn context_window_keeps_last_letters() {
    let mut context: Vec<char> = vec![];
    for c in "abcdefg".chars() {
        update_context(&mut context, c, 3);
        assert!(context.len() <= 3);
    }
    assert_eq!(context, vec!['e', 'f', 'g']);
}

#[test]
fn update_tables_measures_phrases_in_bytes() {
    // "aé" takes three bytes: at k = 2 it loses 'a', and "é" (two bytes) is
    // looked up at level two, where it already knows 'x'.
    let known = ContextItem {
        entries: vec![('x', UsageToken { usage: 1, total: 2 }), ('~', UsageToken { usage: 1, total: 2 })],
    };
    let mut tables = ContextTable {
        levels: vec![
            ContextNode { contexts: vec![(vec![], ContextItem::new())] },
            ContextNode { contexts: vec![] },
            ContextNode { contexts: vec![(vec!['é'], known)] },
        ],
    };
    let mut unseen = alphabet();
    update_tables(&vec!['a', 'é'], 2, 'x', &mut tables, &mut unseen);
    let item = &tables.levels[2].contexts[0].1;
    assert_eq!(item.entries[0].1.get_usage(), 2);
    assert_eq!(item.entries[0].1.total, 3);
    assert_eq!(tables.levels[2].contexts.len(), 1);
    assert_eq!(tables.levels[1].contexts.len(), 0);
    assert_eq!(unseen.len(), 26);
}
