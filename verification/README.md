# img_tournament

Choosing the best of a set of images by a knock-out tournament of pairwise
comparisons.

The candidates (image paths) are the leaves of a balanced binary tree; each
inner node is a match between the winners of its two sides. Matches are played
shallowest first, so when a match comes up both of its contenders are known.

- `src/` is the verified library (Verus):
  - `tree_util` — the tree, adding candidates (`insert`), its well-formedness;
  - `match_list` — the list of matches in playing order (`get_match_up_list`);
  - `tree_walk` — winners (`resolve_winner_leaf`), the next undecided match
    (`find_next_undef_node`, `next_candidate`), addressing and deciding matches;
  - `tree_laws` — proofs of the properties the tournament relies on;
  - `order_laws` — the next undecided match is the first undecided one in
    playing order, and its two sides have winners;
  - `imtr_mediator` — the tournament as a state machine driven by the UI;
  - `imtr_preview`, `imtr_event_object` — the state of the preview and of the
    events passed to it;
  - `month_img_list` — which files of the chosen directory are candidates.
- `app/` is the GTK 4 application around it (windows, drawing, file system).
- `tests/` runs the library on concrete tournaments.
