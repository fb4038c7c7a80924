# position_index

Graph queries over a position-ordered commit index, verified with Verus.

An index implements the trait `PositionIndex`. The library answers by reads of
such an index whether one commit is an ancestor of another, which commits of a
set are its heads, which are the best common ancestors of two sets, and which are
the heads of a filtered range. `PositionIndexAdapter` offers the same by commit
ID over a shared handle.

| Module | Content |
| --- | --- |
| `position_index` | the trait, its entries, and the model which the contracts speak of |
| `graph` | walks over the graph, and ancestors |
| `ancestors` | `is_ancestor`, `is_ancestor_positions` |
| `heads`, `head_laws` | `heads_positions` |
| `common`, `common_laws` | `common_ancestor_positions` |
| `range`, `range_laws` | `heads_from_range_and_filter` |
| `all_heads` | `all_head_positions` |
| `read_laws`, `readable_laws` | what reads answer, and when the queries succeed or fail |
| `answer_laws`, `range_answer_laws` | that each query has one answer, errors included |
| `commits`, `lookup` | `heads`, `all_heads` and `common_ancestors` by commit ID |
| `adapter`, `revset` | `PositionIndexAdapter`, `evaluate_revset` |
| `delta` | records which a mutable index adds |
| `heap`, `queue`, `walk`, `frontier` | the queue of a walk, and its steps |
| `recorder` | the record of the calls of a filter |

A read of the index may fail. The contracts say for each error which read, or
which entry with a parent that is not below it, it comes from; where no read on
the way fails, the result is owed.
